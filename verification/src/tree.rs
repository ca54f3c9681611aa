//! The syntax tree of a template: its nodes and tokens in the order of the text.
//!
//! All elements of a tree stand in one list, each before its children. An element is named by its
//! list position, and the elements below a node are the ones that directly follow it. Nodes without
//! text can be taken for an earlier node in the same place of the text.
use vstd::prelude::*;
use crate::kind::{SyntaxKind, kind_of_raw, raw_of_kind, kind_gives_raw_number_back};
use crate::text::{byte_len, text_len};

verus! {

/// A range of the template's text: the offsets of its first byte and of the byte after its last.
#[derive(Clone, Copy, Debug, PartialEq, Eq, Structural)]
pub struct TextRange {
    pub start: u32,
    pub end: u32,
}

/// One event of a walk over a tree of nodes and tokens. The kinds are raw numbers.
#[derive(Debug)]
pub enum WalkStep {
    /// A node begins: what follows, up to its own `Leave`, is below it.
    EnterNode(u16),
    /// A token with its text.
    EnterToken(u16, String),
    /// The element that was entered last and not left yet ends.
    Leave,
}

/// A step of a walk with its text as characters.
pub enum Step {
    EnterNode(u16),
    EnterToken(u16, Seq<char>),
    Leave,
}

impl WalkStep {
    /// The step with its text as characters.
    pub open spec fn step(self) -> Step {
        match self {
            WalkStep::EnterNode(raw) => Step::EnterNode(raw),
            WalkStep::EnterToken(raw, text) => Step::EnterToken(raw, text@),
            WalkStep::Leave => Step::Leave,
        }
    }
}

/// The steps of a list with their texts as characters.
pub open spec fn step_views(steps: Seq<WalkStep>) -> Seq<Step> {
    Seq::new(steps.len(), |i: int| steps[i].step())
}

/// How many elements are entered and not left yet before step `i`.
pub open spec fn depth(steps: Seq<Step>, i: int) -> int
    decreases i,
{
    if i <= 0 {
        0
    } else if steps[i - 1] is Leave {
        depth(steps, i - 1) - 1
    } else {
        depth(steps, i - 1) + 1
    }
}

/// How many bytes of text the tokens before step `i` hold.
pub open spec fn walked_len(steps: Seq<Step>, i: int) -> nat
    decreases i,
{
    if i <= 0 {
        0
    } else {
        walked_len(steps, i - 1) + match steps[i - 1] {
            Step::EnterToken(_, text) => byte_len(text),
            _ => 0,
        }
    }
}

/// Whether the steps walk over one tree: they begin with its root node, every element that is
/// entered is left again, the root last, and there is nothing below a token.
pub open spec fn nested(steps: Seq<Step>) -> bool {
    &&& steps.len() > 0
    &&& steps[0] is EnterNode
    &&& depth(steps, steps.len() as int) == 0
    &&& forall|i: int| 0 < i < steps.len() ==> #[trigger] depth(steps, i) > 0
    &&& forall|i: int|
        0 <= i < steps.len() && #[trigger] steps[i] is EnterToken ==> i + 1 < steps.len()
            && steps[i + 1] is Leave
}

/// One element of a tree.
pub struct Entry {
    pub kind: SyntaxKind,
    /// The text of a token; `None` for a node.
    pub text: Option<Seq<char>>,
    /// The position of the node that this element is a child of; `None` for the root.
    pub parent: Option<int>,
    /// The position after the last element below this one.
    pub end: int,
    pub range: TextRange,
}

/// The mathematical model of a syntax tree.
pub struct Tree {
    pub entries: Seq<Entry>,
    /// For each element the first one that it is taken for.
    pub leads: Seq<int>,
}

/// How many bytes of text the tokens before position `i` hold.
pub open spec fn offset_of(entries: Seq<Entry>, i: int) -> nat
    decreases i,
{
    if i <= 0 {
        0
    } else {
        offset_of(entries, i - 1) + match entries[i - 1].text {
            Some(text) => byte_len(text),
            None => 0,
        }
    }
}

/// The step that enters an element.
pub open spec fn enter_step(entry: Entry) -> Step {
    match entry.text {
        Some(text) => Step::EnterToken(raw_of_kind(entry.kind), text),
        None => Step::EnterNode(raw_of_kind(entry.kind)),
    }
}

/// The walk over the elements at `lo..hi` and all that is below them.
pub open spec fn walk_of(entries: Seq<Entry>, lo: int, hi: int) -> Seq<Step>
    decreases hi - lo,
{
    if lo < hi && lo < entries[lo].end <= hi {
        seq![enter_step(entries[lo])] + walk_of(entries, lo + 1, entries[lo].end) + seq![
            Step::Leave,
        ] + walk_of(entries, entries[lo].end, hi)
    } else {
        Seq::empty()
    }
}

impl Tree {
    pub open spec fn len(self) -> int {
        self.entries.len() as int
    }

    pub open spec fn kind(self, i: int) -> SyntaxKind {
        self.entries[i].kind
    }

    pub open spec fn is_node(self, i: int) -> bool {
        0 <= i < self.len() && self.entries[i].text is None
    }

    pub open spec fn is_token(self, i: int) -> bool {
        0 <= i < self.len() && self.entries[i].text is Some
    }

    /// The text of the token at `i`.
    pub open spec fn token_text(self, i: int) -> Seq<char> {
        self.entries[i].text->0
    }

    pub open spec fn parent(self, i: int) -> Option<int> {
        self.entries[i].parent
    }

    pub open spec fn end(self, i: int) -> int {
        self.entries[i].end
    }

    pub open spec fn range(self, i: int) -> TextRange {
        self.entries[i].range
    }

    /// Whether the nodes at `i` and `j` are taken for one and the same.
    ///
    /// A tree can use one node in several places. Such places are told apart by where in the text
    /// they are, so two of them are taken for the same if there is no text at or between them.
    pub open spec fn same(self, i: int, j: int) -> bool {
        self.leads[i] == self.leads[j]
    }

    /// Whether the elements `k` places after `i` and `j` have the same kind and text, and end as
    /// far from there.
    pub open spec fn alike_at(self, i: int, j: int, k: int) -> bool {
        &&& self.entries[i + k].kind == self.entries[j + k].kind
        &&& self.entries[i + k].text == self.entries[j + k].text
        &&& self.entries[i + k].end - i == self.entries[j + k].end - j
    }

    /// Whether the elements `k` places after `i` and `j` are taken for the same, if nodes.
    pub open spec fn same_at(self, i: int, j: int, k: int) -> bool {
        self.is_node(i + k) ==> self.same(i + k, j + k)
    }

    /// Whether the elements at `i` and `j` cover the same range, with the same elements below them.
    pub open spec fn alike(self, i: int, j: int) -> bool {
        &&& self.range(i) == self.range(j)
        &&& self.end(i) - i == self.end(j) - j
        &&& forall|k: int| 0 <= k < self.end(i) - i ==> #[trigger] self.alike_at(i, j, k)
    }

    /// What holds of every tree: its elements are in order, and nodes that are taken for the same
    /// look the same, and so do the nodes below them.
    pub open spec fn valid(self) -> bool {
        &&& self.well_formed()
        &&& self.leads.len() == self.len()
        &&& forall|i: int|
            0 <= i < self.len() ==> {
                &&& 0 <= #[trigger] self.leads[i] <= i
                &&& self.leads[self.leads[i]] == self.leads[i]
                &&& self.leads[i] == i || (self.is_node(i) && self.is_node(self.leads[i]))
            }
        &&& forall|i: int, j: int|
            self.is_node(i) && self.is_node(j) && self.same(i, j) ==> #[trigger] self.alike(i, j)
        &&& forall|i: int, j: int, k: int|
            self.is_node(i) && self.is_node(j) && self.same(i, j) && 0 <= k < self.end(i) - i
                ==> #[trigger] self.same_at(i, j, k)
    }

    /// What holds of the elements of every tree.
    pub open spec fn well_formed(self) -> bool {
        // The root is a node and everything is below it.
        &&& self.is_node(0)
        &&& self.end(0) == self.len()
        &&& self.parent(0) is None
        // What is below an element directly follows it; there is nothing below a token.
        &&& forall|i: int|
            #![trigger self.entries[i].end]
            0 <= i < self.len() ==> i < self.end(i) <= self.len() && (self.is_token(i)
                ==> self.end(i) == i + 1)
        &&& forall|i: int, j: int|
            #![trigger self.entries[i].end, self.entries[j].end]
            0 <= i < self.len() && i < j < self.end(i) ==> self.end(j) <= self.end(i)
        // The parent is the innermost node that an element is below.
        &&& forall|j: int|
            #![trigger self.entries[j].parent]
            0 < j < self.len() ==> {
                &&& self.parent(j) is Some
                &&& 0 <= self.parent(j)->0 < j < self.end(self.parent(j)->0)
                &&& self.is_node(self.parent(j)->0)
            }
        &&& forall|j: int, m: int|
            #![trigger self.entries[j].parent, self.entries[m].end]
            0 < j < self.len() && self.parent(j)->0 < m < j ==> self.end(m) <= j
        // A kind that has a name goes by it.
        &&& forall|i: int|
            #![trigger self.entries[i].kind]
            0 <= i < self.len() ==> kind_of_raw(raw_of_kind(self.kind(i))) == self.kind(i)
        // An element covers the text of the tokens at and below it.
        &&& forall|i: int|
            #![trigger self.entries[i].range]
            0 <= i < self.len() ==> self.range(i).start == offset_of(self.entries, i)
                && self.range(i).end == offset_of(self.entries, self.end(i))
    }

    /// The walk over the whole tree.
    pub open spec fn walk(self) -> Seq<Step> {
        walk_of(self.entries, 0, self.len())
    }
}

struct Item {
    kind: SyntaxKind,
    text: Option<String>,
    parent: Option<usize>,
    end: usize,
    range: TextRange,
}

/// A syntax tree.
pub struct SyntaxTree {
    items: Vec<Item>,
    leads: Vec<usize>,
}

impl Item {
    spec fn entry(self) -> Entry {
        Entry {
            kind: self.kind,
            text: match self.text {
                Some(text) => Some(text@),
                None => None,
            },
            parent: match self.parent {
                Some(parent) => Some(parent as int),
                None => None,
            },
            end: self.end as int,
            range: self.range,
        }
    }
}

spec fn entries_of(items: Seq<Item>) -> Seq<Entry> {
    Seq::new(items.len(), |i: int| items[i].entry())
}

impl View for SyntaxTree {
    type V = Tree;

    closed spec fn view(&self) -> Tree {
        Tree {
            entries: entries_of(self.items@),
            leads: Seq::new(self.leads@.len(), |i: int| self.leads@[i] as int),
        }
    }
}

// ---- Building a tree from a walk ----

/// The walk so far, when the elements at the positions in `open` are entered and not left yet.
spec fn open_walk(entries: Seq<Entry>, open: Seq<int>, hi: int) -> Seq<Step>
    decreases open.len(),
{
    if open.len() == 0 {
        walk_of(entries, 0, hi)
    } else {
        open_walk(entries, open.drop_last(), open.last()) + seq![
            enter_step(entries[open.last()]),
        ] + walk_of(entries, open.last() + 1, hi)
    }
}

/// The positions in `open` are those of the elements that are not left yet, from the root down.
/// The `end` of such an element is 0.
spec fn opens_ok(es: Seq<Entry>, open: Seq<int>) -> bool {
    let n = es.len() as int;
    &&& n > 0 ==> es[0].text is None && es[0].parent is None
    &&& forall|i: int|
        0 <= i < open.len() ==> 0 <= #[trigger] open[i] < n && es[open[i]].end == 0
    &&& forall|i: int, j: int| 0 <= i < j < open.len() ==> open[i] < open[j]
    &&& open.len() > 0 ==> open[0] == 0
    &&& forall|i: int| 0 <= i < open.len() - 1 ==> es[#[trigger] open[i]].text is None
    &&& forall|k: int| 0 <= k < n && #[trigger] es[k].end == 0 ==> open.contains(k)
    &&& open.len() > 0 && es[open.last()].text is Some ==> open.last() == n - 1
}

spec fn kinds_ok(es: Seq<Entry>) -> bool {
    forall|k: int|
        #![trigger es[k].kind]
        0 <= k < es.len() ==> kind_of_raw(raw_of_kind(es[k].kind)) == es[k].kind
}

spec fn closed_ok(es: Seq<Entry>) -> bool {
    let n = es.len() as int;
    &&& forall|k: int|
        0 <= k < n && #[trigger] es[k].end != 0 ==> k < es[k].end <= n && (es[k].text is Some
            ==> es[k].end == k + 1)
    &&& forall|k: int, j: int|
        #![trigger es[k].end, es[j].end]
        0 <= k < n && es[k].end != 0 && k < j < es[k].end ==> 0 < es[j].end <= es[k].end
}

spec fn parents_ok(es: Seq<Entry>) -> bool {
    let n = es.len() as int;
    &&& forall|j: int|
        #![trigger es[j].parent]
        0 < j < n ==> {
            &&& es[j].parent is Some
            &&& 0 <= es[j].parent->0 < j
            &&& es[es[j].parent->0].text is None
            &&& es[es[j].parent->0].end == 0 || j < es[es[j].parent->0].end
        }
    &&& forall|j: int, m: int|
        #![trigger es[j].parent, es[m].end]
        0 < j < n && es[j].parent->0 < m < j ==> 0 < es[m].end <= j
}

spec fn ranges_ok(es: Seq<Entry>) -> bool {
    let n = es.len() as int;
    &&& forall|k: int| 0 <= k < n ==> (#[trigger] es[k].range).start == offset_of(es, k)
    &&& forall|k: int|
        0 <= k < n && es[k].end != 0 ==> (#[trigger] es[k].range).end == offset_of(es, es[k].end)
}

/// The elements and what is open come from the first `p` steps.
spec fn steps_ok(es: Seq<Entry>, open: Seq<int>, steps: Seq<Step>, p: int) -> bool {
    let n = es.len() as int;
    &&& 0 <= p <= steps.len()
    &&& p > 0 ==> n > 0
    &&& steps.take(p) == open_walk(es, open, n)
    &&& depth(steps, p) == open.len()
    &&& forall|i: int| 0 < i < p ==> #[trigger] depth(steps, i) > 0
    &&& forall|i: int|
        0 <= i < p - 1 && #[trigger] steps[i] is EnterToken ==> steps[i + 1] is Leave
    &&& p > 0 && steps[p - 1] is EnterToken <==> open.len() > 0 && es[open.last()].text is Some
    &&& offset_of(es, n) == walked_len(steps, p)
}

/// What holds of the elements built from the first `p` steps.
spec fn building(es: Seq<Entry>, open: Seq<int>, steps: Seq<Step>, p: int) -> bool {
    &&& opens_ok(es, open)
    &&& kinds_ok(es)
    &&& closed_ok(es)
    &&& parents_ok(es)
    &&& ranges_ok(es)
    &&& steps_ok(es, open, steps, p)
}

proof fn lemma_offset_frame(a: Seq<Entry>, b: Seq<Entry>, i: int)
    requires
        i <= a.len(),
        i <= b.len(),
        forall|k: int| 0 <= k < i ==> (#[trigger] a[k]).text == b[k].text,
    ensures
        offset_of(a, i) == offset_of(b, i),
    decreases i,
{
    if i > 0 {
        lemma_offset_frame(a, b, i - 1);
        assert(a[i - 1].text == b[i - 1].text);
    }
}

/// Offsets grow with the position.
pub proof fn lemma_offset_monotone(entries: Seq<Entry>, i: int, j: int)
    requires
        i <= j,
    ensures
        offset_of(entries, i) <= offset_of(entries, j),
    decreases j - i,
{
    if i < j {
        lemma_offset_monotone(entries, i, j - 1);
    }
}

proof fn lemma_walked_len_monotone(steps: Seq<Step>, i: int, j: int)
    requires
        i <= j,
    ensures
        walked_len(steps, i) <= walked_len(steps, j),
    decreases j - i,
{
    if i < j {
        lemma_walked_len_monotone(steps, i, j - 1);
    }
}

/// Whether two elements look the same in a walk.
spec fn walks_alike(a: Entry, b: Entry) -> bool {
    a.kind == b.kind && a.text == b.text && a.end == b.end
}

proof fn lemma_walk_frame(a: Seq<Entry>, b: Seq<Entry>, lo: int, hi: int)
    requires
        0 <= lo,
        hi <= a.len(),
        hi <= b.len(),
        forall|k: int| lo <= k < hi ==> walks_alike(#[trigger] a[k], b[k]),
    ensures
        walk_of(a, lo, hi) == walk_of(b, lo, hi),
    decreases hi - lo,
{
    if lo < hi {
        assert(walks_alike(a[lo], b[lo]));
        if lo < a[lo].end <= hi {
            lemma_walk_frame(a, b, lo + 1, a[lo].end);
            lemma_walk_frame(a, b, a[lo].end, hi);
        }
    }
}

proof fn lemma_walk_concat(es: Seq<Entry>, lo: int, mid: int, hi: int)
    requires
        0 <= lo <= mid <= hi <= es.len(),
        forall|k: int| lo <= k < mid ==> k < #[trigger] es[k].end <= mid,
    ensures
        walk_of(es, lo, hi) == walk_of(es, lo, mid) + walk_of(es, mid, hi),
    decreases mid - lo,
{
    if lo < mid {
        assert(lo < es[lo].end <= mid);
        lemma_walk_concat(es, es[lo].end, mid, hi);
        let head = seq![enter_step(es[lo])] + walk_of(es, lo + 1, es[lo].end) + seq![Step::Leave];
        assert(walk_of(es, lo, hi) == head + walk_of(es, es[lo].end, hi));
        assert(head + (walk_of(es, es[lo].end, mid) + walk_of(es, mid, hi)) == (head + walk_of(
            es,
            es[lo].end,
            mid,
        )) + walk_of(es, mid, hi));
    } else {
        assert(walk_of(es, lo, mid) == Seq::<Step>::empty());
        assert(walk_of(es, lo, hi) == walk_of(es, lo, mid) + walk_of(es, mid, hi));
    }
}

proof fn lemma_open_walk_frame(a: Seq<Entry>, b: Seq<Entry>, open: Seq<int>, hi: int)
    requires
        0 <= hi <= a.len(),
        hi <= b.len(),
        forall|k: int| 0 <= k < hi ==> walks_alike(#[trigger] a[k], b[k]),
        forall|i: int| 0 <= i < open.len() ==> 0 <= #[trigger] open[i] < hi,
        forall|i: int, j: int| 0 <= i < j < open.len() ==> open[i] < open[j],
    ensures
        open_walk(a, open, hi) == open_walk(b, open, hi),
    decreases open.len(),
{
    if open.len() == 0 {
        lemma_walk_frame(a, b, 0, hi);
    } else {
        let top = open.last();
        assert(open[open.len() - 1] == top);
        assert(walks_alike(a[top], b[top]));
        lemma_open_walk_frame(a, b, open.drop_last(), top);
        lemma_walk_frame(a, b, top + 1, hi);
    }
}

/// Everything after the innermost open element is closed.
proof fn lemma_after_open(es: Seq<Entry>, open: Seq<int>)
    requires
        opens_ok(es, open),
        closed_ok(es),
    ensures
        forall|m: int|
            (open.len() > 0 ==> open.last() < m) && 0 <= m < es.len() ==> 0
                < #[trigger] es[m].end <= es.len(),
{
    assert forall|m: int|
        (open.len() > 0 ==> open.last() < m) && 0 <= m < es.len() implies 0
        < #[trigger] es[m].end <= es.len() by {
        if es[m].end == 0 {
            assert(open.contains(m));
            let i = choose|i: int| 0 <= i < open.len() && open[i] == m;
            assert(open[i] <= open[open.len() - 1]);
        }
    }
}

proof fn lemma_enter_opens(es: Seq<Entry>, open: Seq<int>, entry: Entry)
    requires
        opens_ok(es, open),
        es.len() > 0 ==> open.len() > 0 && es[open.last()].text is None,
        es.len() == 0 ==> entry.text is None && entry.parent is None,
        entry.end == 0,
    ensures
        opens_ok(es.push(entry), open.push(es.len() as int)),
{
    let n = es.len() as int;
    let es2 = es.push(entry);
    let open2 = open.push(n);
    assert forall|k: int| 0 <= k < n + 1 && #[trigger] es2[k].end == 0 implies open2.contains(
        k,
    ) by {
        if k < n {
            assert(es2[k] == es[k]);
            assert(open.contains(k));
            let i = choose|i: int| 0 <= i < open.len() && open[i] == k;
            assert(open2[i] == k);
        } else {
            assert(open2[open2.len() - 1] == k);
        }
    }
    assert forall|i: int| 0 <= i < open2.len() implies 0 <= #[trigger] open2[i] < n + 1
        && es2[open2[i]].end == 0 by {
        if i < open.len() {
            assert(open2[i] == open[i]);
        }
    }
    assert forall|i: int| 0 <= i < open2.len() - 1 implies es2[
        #[trigger] open2[i]
    ].text is None by {
        assert(open2[i] == open[i]);
        assert(open[open.len() - 1] == open.last());
    }
}

proof fn lemma_enter_parents(es: Seq<Entry>, open: Seq<int>, entry: Entry)
    requires
        opens_ok(es, open),
        closed_ok(es),
        parents_ok(es),
        es.len() > 0 ==> open.len() > 0 && es[open.last()].text is None && entry.parent == Some(
            open.last(),
        ),
        entry.end == 0,
    ensures
        closed_ok(es.push(entry)),
        parents_ok(es.push(entry)),
{
    let n = es.len() as int;
    let es2 = es.push(entry);
    lemma_after_open(es, open);
    if n > 0 {
        assert(open[open.len() - 1] == open.last());
    }
    assert forall|k: int, j: int|
        #![trigger es2[k].end, es2[j].end]
        0 <= k < n + 1 && es2[k].end != 0 && k < j < es2[k].end implies 0 < es2[j].end
        <= es2[k].end by {
        assert(es2[k] == es[k]);
        assert(es2[j] == es[j]);
    }
    assert forall|j: int, m: int|
        #![trigger es2[j].parent, es2[m].end]
        0 < j < n + 1 && es2[j].parent->0 < m < j implies 0 < es2[m].end <= j by {
        assert(es2[m] == es[m]);
        if j < n {
            assert(es2[j] == es[j]);
        }
    }
}

proof fn lemma_enter_ranges(es: Seq<Entry>, entry: Entry)
    requires
        closed_ok(es),
        ranges_ok(es),
        entry.end == 0,
        entry.range.start == offset_of(es, es.len() as int),
    ensures
        ranges_ok(es.push(entry)),
{
    let n = es.len() as int;
    let es2 = es.push(entry);
    assert forall|k: int| 0 <= k <= n implies offset_of(es2, k) == offset_of(es, k) by {
        lemma_offset_frame(es2, es, k);
    }
    assert forall|k: int| 0 <= k < n + 1 implies (#[trigger] es2[k].range).start == offset_of(
        es2,
        k,
    ) by {
        if k < n {
            assert(es2[k] == es[k]);
        }
    }
    assert forall|k: int| 0 <= k < n + 1 && es2[k].end != 0 implies (#[trigger] es2[k].range).end
        == offset_of(es2, es2[k].end) by {
        assert(es2[k] == es[k]);
    }
}

proof fn lemma_enter_steps(
    es: Seq<Entry>,
    open: Seq<int>,
    steps: Seq<Step>,
    p: int,
    entry: Entry,
)
    requires
        opens_ok(es, open),
        steps_ok(es, open, steps, p),
        p < steps.len(),
        steps[p] == enter_step(entry),
        p > 0 ==> open.len() > 0 && es[open.last()].text is None,
    ensures
        steps_ok(es.push(entry), open.push(es.len() as int), steps, p + 1),
{
    let n = es.len() as int;
    let es2 = es.push(entry);
    let open2 = open.push(n);
    lemma_offset_frame(es2, es, n);
    lemma_open_walk_frame(es2, es, open, n);
    assert(open2.drop_last() == open);
    assert(walk_of(es2, n + 1, n + 1) == Seq::<Step>::empty());
    assert(steps.take(p + 1) == steps.take(p).push(steps[p]));
    assert(steps.take(p + 1) == open_walk(es2, open2, n + 1));
}

/// The elements with the innermost open one closed.
spec fn closed_at(es: Seq<Entry>, top: int, range: TextRange) -> Seq<Entry> {
    es.update(top, Entry { end: es.len() as int, range, ..es[top] })
}

proof fn lemma_leave_opens(es: Seq<Entry>, open: Seq<int>, range: TextRange)
    requires
        opens_ok(es, open),
        open.len() > 0,
    ensures
        opens_ok(closed_at(es, open.last(), range), open.drop_last()),
{
    let n = es.len() as int;
    let top = open.last();
    let es2 = closed_at(es, top, range);
    let open2 = open.drop_last();
    assert(open[open.len() - 1] == top);
    assert forall|k: int| 0 <= k < n && #[trigger] es2[k].end == 0 implies open2.contains(k) by {
        assert(es2[k] == es[k]);
        assert(open.contains(k));
        let i = choose|i: int| 0 <= i < open.len() && open[i] == k;
        assert(open2[i] == k);
    }
    assert forall|i: int| 0 <= i < open2.len() implies 0 <= #[trigger] open2[i] < n
        && es2[open2[i]].end == 0 by {
        assert(open2[i] == open[i]);
    }
    assert forall|i: int| 0 <= i < open2.len() - 1 implies es2[
        #[trigger] open2[i]
    ].text is None by {
        assert(open2[i] == open[i]);
    }
    if open2.len() > 0 {
        assert(open2.last() == open[open.len() - 2]);
    }
}

proof fn lemma_leave_parents(es: Seq<Entry>, open: Seq<int>, range: TextRange)
    requires
        opens_ok(es, open),
        closed_ok(es),
        parents_ok(es),
        open.len() > 0,
    ensures
        closed_ok(closed_at(es, open.last(), range)),
        parents_ok(closed_at(es, open.last(), range)),
{
    let n = es.len() as int;
    let top = open.last();
    let es2 = closed_at(es, top, range);
    assert(open[open.len() - 1] == top);
    lemma_after_open(es, open);
    assert forall|k: int| 0 <= k < n && k != top implies #[trigger] es2[k] == es[k] by {}
    assert forall|k: int, j: int|
        #![trigger es2[k].end, es2[j].end]
        0 <= k < n && es2[k].end != 0 && k < j < es2[k].end implies 0 < es2[j].end
        <= es2[k].end by {
        if k != top {
            assert(es2[k] == es[k]);
            assert(0 < es[j].end <= es[k].end);
        }
    }
    assert forall|j: int|
        #![trigger es2[j].parent]
        0 < j < n implies {
        &&& es2[j].parent is Some
        &&& 0 <= es2[j].parent->0 < j
        &&& es2[es2[j].parent->0].text is None
        &&& es2[es2[j].parent->0].end == 0 || j < es2[es2[j].parent->0].end
    } by {
        assert(es2[j].parent == es[j].parent);
        let q = es[j].parent->0;
        assert(es2[q].text == es[q].text);
    }
    assert forall|j: int, m: int|
        #![trigger es2[j].parent, es2[m].end]
        0 < j < n && es2[j].parent->0 < m < j implies 0 < es2[m].end <= j by {
        assert(es2[j].parent == es[j].parent);
        assert(0 < es[m].end <= j);
    }
}

proof fn lemma_leave_ranges(es: Seq<Entry>, top: int, range: TextRange)
    requires
        closed_ok(es),
        ranges_ok(es),
        0 <= top < es.len(),
        range.start == es[top].range.start,
        range.end == offset_of(es, es.len() as int),
    ensures
        ranges_ok(closed_at(es, top, range)),
        offset_of(closed_at(es, top, range), es.len() as int) == offset_of(es, es.len() as int),
{
    let n = es.len() as int;
    let es2 = closed_at(es, top, range);
    assert forall|k: int| 0 <= k <= n implies offset_of(es2, k) == offset_of(es, k) by {
        lemma_offset_frame(es2, es, k);
    }
    assert forall|k: int| 0 <= k < n implies (#[trigger] es2[k].range).start == offset_of(
        es2,
        k,
    ) by {
        assert(es[k].range.start == offset_of(es, k));
    }
    assert forall|k: int| 0 <= k < n && es2[k].end != 0 implies (#[trigger] es2[k].range).end
        == offset_of(es2, es2[k].end) by {
        if k != top {
            assert(es2[k] == es[k]);
        }
    }
}

proof fn lemma_leave_steps(
    es: Seq<Entry>,
    open: Seq<int>,
    steps: Seq<Step>,
    p: int,
    range: TextRange,
)
    requires
        opens_ok(es, open),
        closed_ok(es),
        parents_ok(es),
        steps_ok(es, open, steps, p),
        p < steps.len(),
        steps[p] is Leave,
        open.len() > 0,
        p > 0,
    ensures
        steps_ok(closed_at(es, open.last(), range), open.drop_last(), steps, p + 1),
{
    let n = es.len() as int;
    let top = open.last();
    let es2 = closed_at(es, top, range);
    let open2 = open.drop_last();
    assert(open[open.len() - 1] == top);
    lemma_after_open(es, open);
    lemma_offset_frame(es2, es, n);
    assert(steps.take(p + 1) == steps.take(p).push(steps[p]));
    // The walk over what is below the element that is left.
    lemma_walk_frame(es2, es, top + 1, n);
    assert(walk_of(es2, n, n) == Seq::<Step>::empty());
    let below = walk_of(es, top + 1, n);
    let entered = enter_step(es[top]);
    assert(enter_step(es2[top]) == entered);
    assert(walk_of(es2, top, n) == seq![entered] + below + seq![Step::Leave] + Seq::<
        Step,
    >::empty());
    if open2.len() == 0 {
        assert(top == 0);
        assert(walk_of(es, 0, 0) == Seq::<Step>::empty());
        assert(open_walk(es, open2, 0) == Seq::<Step>::empty());
        assert(open_walk(es2, open2, n) == walk_of(es2, 0, n));
        assert(open_walk(es2, open2, n) == steps.take(p + 1));
    } else {
        let s = open2.last();
        assert(s == open[open.len() - 2]);
        assert forall|k: int| s + 1 <= k < top implies k < #[trigger] es[k].end <= top by {
            if es[k].end == 0 {
                assert(open.contains(k));
                let i = choose|i: int| 0 <= i < open.len() && open[i] == k;
                assert(i <= open.len() - 2 ==> open[i] <= s);
            } else if es[k].end > top {
                assert(0 < es[top].end);
            }
        }
        assert forall|k: int| s + 1 <= k < top implies k < #[trigger] es2[k].end <= top by {
            assert(es2[k] == es[k]);
        }
        lemma_walk_concat(es2, s + 1, top, n);
        lemma_walk_frame(es2, es, s + 1, top);
        lemma_open_walk_frame(es2, es, open2.drop_last(), s);
        let before = open_walk(es, open2.drop_last(), s) + seq![enter_step(es[s])];
        assert(enter_step(es2[s]) == enter_step(es[s]));
        assert(open_walk(es, open2, top) == before + walk_of(es, s + 1, top));
        assert(steps.take(p) == open_walk(es, open2, top) + seq![entered] + below);
        assert(open_walk(es2, open2, n) == before + (walk_of(es, s + 1, top) + walk_of(
            es2,
            top,
            n,
        )));
        assert(open_walk(es2, open2, n) == steps.take(p + 1));
    }
}

/// All steps are done and everything is closed.
proof fn lemma_built(es: Seq<Entry>, leads: Seq<int>, steps: Seq<Step>)
    requires
        building(es, Seq::empty(), steps, steps.len() as int),
        steps.len() > 0,
        steps[0] is EnterNode,
    ensures
        nested(steps),
        (Tree { entries: es, leads }).well_formed(),
        (Tree { entries: es, leads }).walk() == steps,
        offset_of(es, es.len() as int) == walked_len(steps, steps.len() as int),
{
    let t = Tree { entries: es, leads };
    let n = steps.len() as int;
    let open = Seq::<int>::empty();
    assert(steps.take(n) == steps);
    lemma_after_open(es, open);
    assert(steps[n - 1] is EnterToken <==> open.len() > 0 && es[open.last()].text is Some);
    assert(walk_of(es, 0, es.len() as int) == steps);
    assert(es[0].end == es.len()) by {
        if es[0].end < es.len() {
            let next = es[es[0].end];
            assert(es[next.parent->0].end > es[0].end);
        }
    }
}

impl SyntaxTree {
    /// Builds the tree that `steps` walk over. Every node in it is taken for itself alone.
    ///
    /// There is none if the steps do not walk over one tree, or if the text is longer than a
    /// `TextRange` can say.
    pub fn from_walk(steps: Vec<WalkStep>) -> (tree: Option<SyntaxTree>)
        ensures
            tree is Some <==> nested(step_views(steps@)) && walked_len(
                step_views(steps@),
                steps.len() as int,
            ) <= u32::MAX,
            tree matches Some(t) ==> t@.valid() && t@.walk() == step_views(steps@) && forall|
                i: int,
                j: int,
            |
                0 <= i < t@.len() && 0 <= j < t@.len() ==> (#[trigger] t@.same(i, j) <==> i == j),
    {
        let ghost sv = step_views(steps@);
        if steps.len() == 0 {
            return None;
        }
        match &steps[0] {
            WalkStep::EnterNode(_) => {},
            _ => {
                assert(!(sv[0] is EnterNode));
                return None;
            },
        }
        let mut items: Vec<Item> = Vec::new();
        let mut open: Vec<usize> = Vec::new();
        let ghost mut opened: Seq<int> = Seq::empty();
        let mut offset: u32 = 0;
        let mut p: usize = 0;
        proof {
            assert(sv[0] is EnterNode);
            assert(sv.take(0) == Seq::<Step>::empty());
            assert(walk_of(entries_of(items@), 0, 0) == Seq::<Step>::empty());
            assert(open_walk(entries_of(items@), opened, 0) == Seq::<Step>::empty());
        }
        while p < steps.len()
            invariant
                p <= steps.len(),
                steps.len() > 0,
                sv == step_views(steps@),
                sv[0] is EnterNode,
                building(entries_of(items@), opened, sv, p as int),
                opened.len() == open.len(),
                forall|i: int| 0 <= i < open.len() ==> opened[i] == #[trigger] open[i],
                offset == offset_of(entries_of(items@), items.len() as int),
                p == 0 ==> items.len() == 0 && open.len() == 0,
            decreases steps.len() - p,
        {
            let ghost es = entries_of(items@);
            assert(sv[p as int] == steps[p as int].step());
            if p > 0 && open.len() == 0 {
                assert(depth(sv, p as int) == 0);
                return None;
            }
            if open.len() > 0 {
                assert(opened.last() == open[open.len() - 1]);
                assert(opened[opened.len() - 1] < es.len());
            }
            match &steps[p] {
                WalkStep::Leave => {
                    let top: usize = open[open.len() - 1];
                    let end: usize = items.len();
                    let ghost range = TextRange { start: es[top as int].range.start, end: offset };
                    items[top].end = end;
                    items[top].range.end = offset;
                    open.pop();
                    proof {
                        assert(kinds_ok(closed_at(es, top as int, range)));
                        lemma_leave_opens(es, opened, range);
                        lemma_leave_parents(es, opened, range);
                        lemma_leave_ranges(es, top as int, range);
                        lemma_leave_steps(es, opened, sv, p as int, range);
                        assert(entries_of(items@) == closed_at(es, top as int, range));
                        opened = opened.drop_last();
                    }
                },
                WalkStep::EnterNode(raw) => {
                    let mut parent: Option<usize> = None;
                    if open.len() > 0 {
                        let top: usize = open[open.len() - 1];
                        if items[top].text.is_some() {
                            assert(sv[p - 1] is EnterToken);
                            assert(!(sv[p as int] is Leave));
                            return None;
                        }
                        parent = Some(top);
                    }
                    let item = Item {
                        kind: SyntaxKind::from_raw(*raw),
                        text: None,
                        parent,
                        end: 0,
                        range: TextRange { start: offset, end: offset },
                    };
                    let at: usize = items.len();
                    let ghost entry = item.entry();
                    items.push(item);
                    open.push(at);
                    proof {
                        kind_gives_raw_number_back(*raw);
                        assert(sv[p as int] == enter_step(entry));
                        assert(kinds_ok(es.push(entry)));
                        lemma_enter_opens(es, opened, entry);
                        lemma_enter_parents(es, opened, entry);
                        lemma_enter_ranges(es, entry);
                        lemma_enter_steps(es, opened, sv, p as int, entry);
                        assert(entries_of(items@) == es.push(entry));
                        lemma_offset_frame(es.push(entry), es, es.len() as int);
                        opened = opened.push(at as int);
                    }
                },
                WalkStep::EnterToken(raw, text) => {
                    let top: usize = open[open.len() - 1];
                    if items[top].text.is_some() {
                        assert(sv[p - 1] is EnterToken);
                        assert(!(sv[p as int] is Leave));
                        return None;
                    }
                    let len: usize = text_len(text.as_str());
                    if len > (u32::MAX - offset) as usize {
                        proof {
                            lemma_walked_len_monotone(sv, p + 1, sv.len() as int);
                        }
                        return None;
                    }
                    let item = Item {
                        kind: SyntaxKind::from_raw(*raw),
                        text: Some(text.clone()),
                        parent: Some(top),
                        end: 0,
                        range: TextRange { start: offset, end: offset },
                    };
                    let at: usize = items.len();
                    let ghost entry = item.entry();
                    items.push(item);
                    open.push(at);
                    offset = offset + len as u32;
                    proof {
                        kind_gives_raw_number_back(*raw);
                        assert(sv[p as int] == enter_step(entry));
                        assert(kinds_ok(es.push(entry)));
                        lemma_enter_opens(es, opened, entry);
                        lemma_enter_parents(es, opened, entry);
                        lemma_enter_ranges(es, entry);
                        lemma_enter_steps(es, opened, sv, p as int, entry);
                        assert(entries_of(items@) == es.push(entry));
                        lemma_offset_frame(es.push(entry), es, es.len() as int);
                        opened = opened.push(at as int);
                    }
                },
            }
            p += 1;
        }
        if open.len() > 0 {
            assert(depth(sv, sv.len() as int) > 0);
            return None;
        }
        let mut leads: Vec<usize> = Vec::new();
        while leads.len() < items.len()
            invariant
                leads.len() <= items.len(),
                forall|i: int| 0 <= i < leads.len() ==> #[trigger] leads[i] == i,
            decreases items.len() - leads.len(),
        {
            leads.push(leads.len());
        }
        let tree = SyntaxTree { items, leads };
        proof {
            assert(opened == Seq::<int>::empty());
            lemma_built(entries_of(items@), tree@.leads, sv);
        }
        Some(tree)
    }

    /// The tree with other information on which nodes are taken for which.
    pub(crate) fn with_leads(self, leads: Vec<usize>) -> (tree: SyntaxTree)
        ensures
            tree@.entries == self@.entries,
            tree@.leads == Seq::new(leads@.len(), |i: int| leads@[i] as int),
    {
        SyntaxTree { items: self.items, leads }
    }

    /// Whether the nodes at `i` and `j` are taken for one and the same.
    pub fn same_node(&self, i: usize, j: usize) -> (same: bool)
        requires
            self@.valid(),
            self@.is_node(i as int),
            self@.is_node(j as int),
        ensures
            same == self@.same(i as int, j as int),
    {
        self.leads[i] == self.leads[j]
    }
}

impl SyntaxTree {
    /// How many elements the tree has.
    pub fn len(&self) -> (len: usize)
        ensures
            len == self@.len(),
    {
        self.items.len()
    }

    /// The kind of the element at `i`.
    pub fn kind(&self, i: usize) -> (kind: SyntaxKind)
        requires
            i < self@.len(),
        ensures
            kind == self@.kind(i as int),
    {
        self.items[i].kind
    }

    /// Whether the element at `i` is a node.
    pub fn is_node(&self, i: usize) -> (node: bool)
        requires
            i < self@.len(),
        ensures
            node == self@.is_node(i as int),
            node == !self@.is_token(i as int),
    {
        self.items[i].text.is_none()
    }

    /// The text of the token at `i`.
    pub fn token_text(&self, i: usize) -> (text: &str)
        requires
            self@.is_token(i as int),
        ensures
            text@ == self@.token_text(i as int),
    {
        match &self.items[i].text {
            Some(text) => text.as_str(),
            None => "",
        }
    }

    /// The node that the element at `i` is a child of.
    pub fn parent(&self, i: usize) -> (parent: Option<usize>)
        requires
            i < self@.len(),
        ensures
            match parent {
                Some(p) => self@.parent(i as int) == Some(p as int),
                None => self@.parent(i as int) is None,
            },
    {
        self.items[i].parent
    }

    /// The position after the last element below the one at `i`.
    pub fn end(&self, i: usize) -> (end: usize)
        requires
            i < self@.len(),
        ensures
            end == self@.end(i as int),
    {
        self.items[i].end
    }

    /// The text range that the element at `i` covers.
    pub fn text_range(&self, i: usize) -> (range: TextRange)
        requires
            i < self@.len(),
        ensures
            range == self@.range(i as int),
    {
        self.items[i].range
    }
}

} // verus!
