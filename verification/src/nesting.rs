//! What it means for the rendered page that the fragments of a template have no errors.
//!
//! Which fragments are rendered depends on the Twig conditions. A valuation says of each condition
//! whether it holds. A fragment is shown under a valuation if all conditions around it are as the
//! valuation says.
use vstd::prelude::*;
use crate::branches::{is_condition_header, lemma_counted_body};
use crate::html_fragments::{
    ContextView, ErrorView, FragmentView, Matching, branch_conditions, child_towards,
    condition_text, conditions_from, context_of, contradict, crosses, crossings, crossings_of,
    errors_below, exclusive, fits, fitting, fragment_errors, fragments_between, header_limit,
    last_place, lemma_last_place, leftover_errors, matched, matching, mismatch_at,
    mismatches_between, resembling,
};
use crate::kind::SyntaxKind;
use crate::nodes::{lemma_child_nodes, lemma_encloses_parent, lemma_filter_sorted};
use crate::tree::Tree;

verus! {

/// Whether all conditions of a context are as the valuation `v` says.
pub open spec fn holds(context: ContextView, v: spec_fn(Seq<char>) -> bool) -> bool {
    forall|i: int|
        0 <= i < context.conditions.len() ==> v((#[trigger] context.conditions[i]).0)
            == context.conditions[i].1
}

/// The fragments that are open after the first `n` ones, the outermost first, counting only those
/// that are shown under the valuation `v`. `None` if a closing tag does not close the tag that was
/// opened last.
pub open spec fn open_tags(
    fs: Seq<FragmentView>,
    v: spec_fn(Seq<char>) -> bool,
    n: int,
) -> Option<Seq<int>>
    decreases n,
{
    if n <= 0 {
        Some(Seq::empty())
    } else {
        match open_tags(fs, v, n - 1) {
            None => None,
            Some(stack) => {
                let f = fs[n - 1];
                if !holds(f.context, v) {
                    Some(stack)
                } else if f.opening {
                    Some(stack.push(n - 1))
                } else if stack.len() > 0 && fs[stack.last()].key == f.key {
                    Some(stack.drop_last())
                } else {
                    None
                }
            },
        }
    }
}

/// Whether the fragments that are shown under the valuation `v` are properly nested: every closing
/// tag closes the tag that was opened last, and nothing stays open.
pub open spec fn properly_nested(fs: Seq<FragmentView>, v: spec_fn(Seq<char>) -> bool) -> bool {
    open_tags(fs, v, fs.len() as int) == Some(Seq::<int>::empty())
}

/// Mutual exclusion does not depend on the order of the two contexts.
pub proof fn exclusion_is_symmetric(a: ContextView, b: ContextView)
    ensures
        exclusive(a, b) == exclusive(b, a),
{
    if exclusive(a, b) {
        let (i, j) = choose|i: int, j: int|
            0 <= i < a.conditions.len() && 0 <= j < b.conditions.len() && contradict(
                #[trigger] a.conditions[i],
                #[trigger] b.conditions[j],
            );
        assert(contradict(b.conditions[j], a.conditions[i]));
    }
    if exclusive(b, a) {
        let (i, j) = choose|i: int, j: int|
            0 <= i < b.conditions.len() && 0 <= j < a.conditions.len() && contradict(
                #[trigger] b.conditions[i],
                #[trigger] a.conditions[j],
            );
        assert(contradict(a.conditions[j], b.conditions[i]));
    }
}

/// Contexts that exclude each other are never shown together.
pub proof fn exclusive_contexts_are_not_shown_together(
    a: ContextView,
    b: ContextView,
    v: spec_fn(Seq<char>) -> bool,
)
    requires
        exclusive(a, b),
    ensures
        !(holds(a, v) && holds(b, v)),
{
    let (i, j) = choose|i: int, j: int|
        0 <= i < a.conditions.len() && 0 <= j < b.conditions.len() && contradict(
            #[trigger] a.conditions[i],
            #[trigger] b.conditions[j],
        );
    if holds(a, v) && holds(b, v) {
        assert(v(a.conditions[i].0) == a.conditions[i].1);
        assert(v(b.conditions[j].0) == b.conditions[j].1);
    }
}

// ---- What the matching keeps ----

/// What holds of the tags that wait and of the pairs after the first `n` fragments.
spec fn sound(fs: Seq<FragmentView>, m: Matching, n: int) -> bool {
    &&& forall|k: int|
        0 <= k < m.openings.len() ==> 0 <= #[trigger] m.openings[k] < n && fs[m.openings[k]].opening
    &&& forall|k: int, j: int| 0 <= k < j < m.openings.len() ==> m.openings[k] < m.openings[j]
    &&& forall|k: int|
        0 <= k < m.pairs.len() ==> 0 <= (#[trigger] m.pairs[k]).0 < m.pairs[k].1 < n && fs[
            m.pairs[k].0
        ].opening && !fs[m.pairs[k].1].opening && fits(fs[m.pairs[k].0], fs[m.pairs[k].1])
    &&& forall|k: int, j: int| 0 <= k < j < m.pairs.len() ==> m.pairs[k].1 < m.pairs[j].1
    &&& forall|k: int, j: int|
        0 <= k < m.pairs.len() && 0 <= j < m.pairs.len() && k != j ==> m.pairs[k].0 != m.pairs[j].0
    &&& forall|k: int, j: int|
        0 <= k < m.pairs.len() && 0 <= j < m.openings.len() ==> (#[trigger] m.pairs[k]).0
            != #[trigger] m.openings[j]
}

/// Whether the fragment at `i` waits or is part of a pair.
spec fn placed(m: Matching, i: int) -> bool {
    m.openings.contains(i) || exists|k: int|
        0 <= k < m.pairs.len() && ((#[trigger] m.pairs[k]).0 == i || m.pairs[k].1 == i)
}

proof fn lemma_sound_step(fs: Seq<FragmentView>, m: Matching, n: int)
    requires
        0 <= n < fs.len(),
        sound(fs, m, n),
    ensures
        sound(fs, matched(fs, m, n), n + 1),
{
    let f = fs[n];
    let next = matched(fs, m, n);
    if f.opening {
    } else {
        lemma_last_place(m.openings, fitting(fs, f));
        lemma_last_place(m.openings, resembling(fs, f));
        if let Some(k) = last_place(m.openings, fitting(fs, f)) {
            assert(fits(fs[m.openings[k]], f));
        }
    }
}

proof fn lemma_sound(fs: Seq<FragmentView>, n: int)
    requires
        0 <= n <= fs.len(),
    ensures
        sound(fs, matching(fs, n), n),
    decreases n,
{
    if n > 0 {
        lemma_sound(fs, n - 1);
        lemma_sound_step(fs, matching(fs, n - 1), n - 1);
    }
}

/// As long as there are no errors, every fragment waits or is part of a pair.
proof fn lemma_all_placed(fs: Seq<FragmentView>, n: int)
    requires
        0 <= n <= fs.len(),
        matching(fs, n).errors.len() == 0,
    ensures
        forall|i: int| 0 <= i < n ==> #[trigger] placed(matching(fs, n), i),
    decreases n,
{
    if n > 0 {
        let m = matching(fs, n - 1);
        let next = matching(fs, n);
        let f = fs[n - 1];
        lemma_all_placed(fs, n - 1);
        lemma_last_place(m.openings, fitting(fs, f));
        assert forall|i: int| 0 <= i < n implies #[trigger] placed(next, i) by {
            if f.opening {
                if i == n - 1 {
                    assert(next.openings[m.openings.len() as int] == i);
                } else if m.openings.contains(i) {
                    let j = choose|j: int| 0 <= j < m.openings.len() && m.openings[j] == i;
                    assert(next.openings[j] == i);
                } else {
                    assert(placed(m, i));
                    let j = choose|j: int|
                        0 <= j < m.pairs.len() && ((#[trigger] m.pairs[j]).0 == i || m.pairs[j].1
                            == i);
                    assert(next.pairs[j] == m.pairs[j]);
                }
            } else {
                assert(last_place(m.openings, fitting(fs, f)) is Some);
                let k = last_place(m.openings, fitting(fs, f))->0;
                let pair = next.pairs[m.pairs.len() as int];
                assert(pair == (m.openings[k], n - 1));
                if i < n - 1 {
                    assert(placed(m, i));
                    if m.openings.contains(i) {
                        let j = choose|j: int| 0 <= j < m.openings.len() && m.openings[j] == i;
                        if j < k {
                            assert(next.openings[j] == i);
                        } else if j > k {
                            assert(next.openings[j - 1] == i);
                        }
                    } else {
                        let j = choose|j: int|
                            0 <= j < m.pairs.len() && ((#[trigger] m.pairs[j]).0 == i
                                || m.pairs[j].1 == i);
                        assert(next.pairs[j] == m.pairs[j]);
                    }
                }
            }
        }
    }
}

/// A pair has an opening tag and a closing tag after it, and the two match.
pub proof fn pairs_match(fs: Seq<FragmentView>, k: int)
    requires
        0 <= k < matching(fs, fs.len() as int).pairs.len(),
    ensures
        ({
            let (opening, closing) = matching(fs, fs.len() as int).pairs[k];
            &&& 0 <= opening < closing < fs.len()
            &&& fs[opening].opening
            &&& !fs[closing].opening
            &&& fits(fs[opening], fs[closing])
        }),
{
    lemma_sound(fs, fs.len() as int);
}

/// No tag is part of two pairs, and none that is part of a pair is reported as waiting.
pub proof fn pairs_share_no_tag(fs: Seq<FragmentView>, k: int, j: int)
    requires
        0 <= k < j < matching(fs, fs.len() as int).pairs.len(),
    ensures
        ({
            let m = matching(fs, fs.len() as int);
            &&& m.pairs[k].0 != m.pairs[j].0
            &&& m.pairs[k].1 < m.pairs[j].1
            &&& !m.openings.contains(m.pairs[k].0)
            &&& !m.openings.contains(m.pairs[j].0)
        }),
{
    lemma_sound(fs, fs.len() as int);
}

/// The two tags of a pair are shown under the same valuations.
pub proof fn pairs_are_shown_together(
    fs: Seq<FragmentView>,
    k: int,
    v: spec_fn(Seq<char>) -> bool,
)
    requires
        0 <= k < matching(fs, fs.len() as int).pairs.len(),
    ensures
        ({
            let (opening, closing) = matching(fs, fs.len() as int).pairs[k];
            holds(fs[opening].context, v) == holds(fs[closing].context, v)
        }),
{
    lemma_sound(fs, fs.len() as int);
}

/// How many of the first `n` fragments are closing tags.
pub open spec fn closing_count(fs: Seq<FragmentView>, n: int) -> nat
    decreases n,
{
    if n <= 0 {
        0
    } else {
        closing_count(fs, n - 1) + if fs[n - 1].opening {
            0nat
        } else {
            1nat
        }
    }
}

proof fn lemma_closings_counted(fs: Seq<FragmentView>, n: int)
    requires
        0 <= n <= fs.len(),
    ensures
        closing_count(fs, n) == matching(fs, n).pairs.len() + matching(fs, n).errors.len(),
    decreases n,
{
    if n > 0 {
        lemma_closings_counted(fs, n - 1);
    }
}

/// Every closing tag is part of a pair, or there is exactly one error for it.
pub proof fn closing_tags_are_matched_or_reported(fs: Seq<FragmentView>)
    ensures
        closing_count(fs, fs.len() as int) == matching(fs, fs.len() as int).pairs.len() + matching(
            fs,
            fs.len() as int,
        ).errors.len(),
{
    lemma_closings_counted(fs, fs.len() as int);
}

/// How many of the errors point at an opening tag.
pub open spec fn pointing_count(errors: Seq<ErrorView>) -> nat
    decreases errors.len(),
{
    if errors.len() == 0 {
        0
    } else {
        pointing_count(errors.drop_last()) + if errors.last().secondary is Some {
            1nat
        } else {
            0nat
        }
    }
}

proof fn lemma_openings_counted(fs: Seq<FragmentView>, n: int)
    requires
        0 <= n <= fs.len(),
    ensures
        n - closing_count(fs, n) == matching(fs, n).pairs.len() + matching(fs, n).openings.len()
            + pointing_count(matching(fs, n).errors),
    decreases n,
{
    if n > 0 {
        lemma_openings_counted(fs, n - 1);
        let m = matching(fs, n - 1);
        let f = fs[n - 1];
        lemma_last_place(m.openings, fitting(fs, f));
        lemma_last_place(m.openings, resembling(fs, f));
        if matching(fs, n).errors != m.errors {
            assert(matching(fs, n).errors.drop_last() == m.errors);
        }
    }
}

/// Every opening tag is part of a pair, or left over, or there is an error for a closing tag that
/// points at it.
pub proof fn opening_tags_are_matched_or_reported(fs: Seq<FragmentView>)
    ensures
        ({
            let m = matching(fs, fs.len() as int);
            fs.len() - closing_count(fs, fs.len() as int) == m.pairs.len() + m.openings.len()
                + pointing_count(m.errors)
        }),
{
    lemma_openings_counted(fs, fs.len() as int);
}

// ---- When there are no errors ----

proof fn lemma_crossings_of(fs: Seq<FragmentView>, pairs: Seq<(int, int)>, i: int, j: int)
    requires
        0 <= i,
        j <= pairs.len(),
    ensures
        crossings_of(fs, pairs, i, j).len() == 0 <==> forall|k: int|
            i < k < j ==> !crosses(fs, pairs[i], #[trigger] pairs[k]),
    decreases j - i,
{
    if j > i + 1 {
        lemma_crossings_of(fs, pairs, i, j - 1);
        if crossings_of(fs, pairs, i, j).len() == 0 {
            assert forall|k: int| i < k < j implies !crosses(fs, pairs[i], #[trigger] pairs[k]) by {
                if k < j - 1 {
                    assert(crossings_of(fs, pairs, i, j - 1).len() == 0);
                }
            }
        } else if crossings_of(fs, pairs, i, j - 1).len() == 0 {
            assert(crosses(fs, pairs[i], pairs[j - 1]));
        } else {
            let k = choose|k: int| i < k < j - 1 && crosses(fs, pairs[i], #[trigger] pairs[k]);
            assert(crosses(fs, pairs[i], pairs[k]));
        }
    }
}

proof fn lemma_crossings(fs: Seq<FragmentView>, pairs: Seq<(int, int)>, n: int)
    requires
        0 <= n <= pairs.len(),
    ensures
        crossings(fs, pairs, n).len() == 0 <==> forall|i: int, j: int|
            0 <= i < n && i < j < pairs.len() ==> !crosses(
                fs,
                #[trigger] pairs[i],
                #[trigger] pairs[j],
            ),
    decreases n,
{
    if n > 0 {
        lemma_crossings(fs, pairs, n - 1);
        lemma_crossings_of(fs, pairs, n - 1, pairs.len() as int);
    }
}

/// Nothing is reported exactly if every closing tag matches, no opening tag is left over and no
/// two pairs cross.
pub proof fn nothing_is_reported_iff_all_match(fs: Seq<FragmentView>)
    ensures
        ({
            let m = matching(fs, fs.len() as int);
            fragment_errors(fs).len() == 0 <==> {
                &&& m.errors.len() == 0
                &&& m.openings.len() == 0
                &&& forall|i: int, j: int|
                    0 <= i < j < m.pairs.len() ==> !crosses(
                        fs,
                        #[trigger] m.pairs[i],
                        #[trigger] m.pairs[j],
                    )
            }
        }),
{
    let m = matching(fs, fs.len() as int);
    lemma_crossings(fs, m.pairs, m.pairs.len() as int);
    assert(leftover_errors(fs, m.openings).len() == m.openings.len());
}

/// Without errors, every fragment is part of a pair.
pub proof fn without_errors_all_tags_are_paired(fs: Seq<FragmentView>, i: int)
    requires
        fragment_errors(fs).len() == 0,
        0 <= i < fs.len(),
    ensures
        ({
            let m = matching(fs, fs.len() as int);
            exists|k: int|
                0 <= k < m.pairs.len() && ((#[trigger] m.pairs[k]).0 == i || m.pairs[k].1 == i)
        }),
{
    nothing_is_reported_iff_all_match(fs);
    lemma_all_placed(fs, fs.len() as int);
    assert(placed(matching(fs, fs.len() as int), i));
}

/// Whether the fragment at `i` is shown, opens a pair and is closed at `n` or later.
spec fn still_open(
    fs: Seq<FragmentView>,
    v: spec_fn(Seq<char>) -> bool,
    n: int,
    i: int,
) -> bool {
    let pairs = matching(fs, fs.len() as int).pairs;
    &&& 0 <= i < n
    &&& holds(fs[i].context, v)
    &&& exists|k: int| 0 <= k < pairs.len() && (#[trigger] pairs[k]).0 == i && n <= pairs[k].1
}

/// Without errors, the open tags are those whose closing tag is still to come.
proof fn lemma_open_tags(fs: Seq<FragmentView>, v: spec_fn(Seq<char>) -> bool, n: int)
    requires
        fragment_errors(fs).len() == 0,
        0 <= n <= fs.len(),
    ensures
        open_tags(fs, v, n) matches Some(stack) && {
            &&& forall|x: int, y: int| 0 <= x < y < stack.len() ==> stack[x] < stack[y]
            &&& forall|x: int| 0 <= x < stack.len() ==> still_open(fs, v, n, #[trigger] stack[x])
            &&& forall|i: int| #[trigger] still_open(fs, v, n, i) ==> stack.contains(i)
        },
    decreases n,
{
    if n > 0 {
        lemma_open_tags(fs, v, n - 1);
        let pairs = matching(fs, fs.len() as int).pairs;
        let stack = open_tags(fs, v, n - 1)->0;
        let f = fs[n - 1];
        lemma_sound(fs, fs.len() as int);
        nothing_is_reported_iff_all_match(fs);
        without_errors_all_tags_are_paired(fs, n - 1);
        let k = choose|k: int|
            0 <= k < pairs.len() && ((#[trigger] pairs[k]).0 == n - 1 || pairs[k].1 == n - 1);
        if !holds(f.context, v) {
            assert forall|i: int| 0 <= i < n - 1 implies still_open(fs, v, n - 1, i) == still_open(
                fs,
                v,
                n,
                i,
            ) by {
                lemma_other_stays_open(fs, v, n, i);
            }
            assert(!still_open(fs, v, n, n - 1));
            assert forall|x: int| 0 <= x < stack.len() implies still_open(
                fs,
                v,
                n,
                #[trigger] stack[x],
            ) by {
                assert(still_open(fs, v, n - 1, stack[x]));
            }
            assert forall|i: int| #[trigger] still_open(fs, v, n, i) implies stack.contains(i) by {
                assert(still_open(fs, v, n - 1, i));
            }
        } else if f.opening {
            lemma_opening_pushed(fs, v, n, k, stack);
        } else {
            lemma_closing_popped(fs, v, n, k, stack);
        }
    }
}

/// A step with a fragment that is not shown keeps the open tags.
proof fn lemma_other_stays_open(
    fs: Seq<FragmentView>,
    v: spec_fn(Seq<char>) -> bool,
    n: int,
    i: int,
)
    requires
        0 < n <= fs.len(),
        0 <= i < n - 1,
        fs[n - 1].opening || !holds(fs[n - 1].context, v),
    ensures
        still_open(fs, v, n - 1, i) == still_open(fs, v, n, i),
{
    let pairs = matching(fs, fs.len() as int).pairs;
    lemma_sound(fs, fs.len() as int);
    if still_open(fs, v, n - 1, i) {
        let k = choose|k: int|
            0 <= k < pairs.len() && (#[trigger] pairs[k]).0 == i && n - 1 <= pairs[k].1;
        // The closing tag is shown too, so it is not the fragment at `n - 1`.
        assert(fits(fs[pairs[k].0], fs[pairs[k].1]));
        assert(holds(fs[pairs[k].1].context, v));
        assert(pairs[k].1 != n - 1);
        assert(still_open(fs, v, n, i));
    }
    if still_open(fs, v, n, i) {
        let k = choose|k: int|
            0 <= k < pairs.len() && (#[trigger] pairs[k]).0 == i && n <= pairs[k].1;
        assert(n - 1 <= pairs[k].1);
    }
}

/// A step with an opening tag that is shown.
proof fn lemma_opening_pushed(
    fs: Seq<FragmentView>,
    v: spec_fn(Seq<char>) -> bool,
    n: int,
    k: int,
    stack: Seq<int>,
)
    requires
        0 < n <= fs.len(),
        holds(fs[n - 1].context, v),
        fs[n - 1].opening,
        ({
            let pairs = matching(fs, fs.len() as int).pairs;
            0 <= k < pairs.len() && (pairs[k].0 == n - 1 || pairs[k].1 == n - 1)
        }),
        forall|x: int, y: int| 0 <= x < y < stack.len() ==> stack[x] < stack[y],
        forall|x: int| 0 <= x < stack.len() ==> still_open(fs, v, n - 1, #[trigger] stack[x]),
        forall|i: int| #[trigger] still_open(fs, v, n - 1, i) ==> stack.contains(i),
    ensures
        ({
            let next = stack.push(n - 1);
            &&& forall|x: int, y: int| 0 <= x < y < next.len() ==> next[x] < next[y]
            &&& forall|x: int| 0 <= x < next.len() ==> still_open(fs, v, n, #[trigger] next[x])
            &&& forall|i: int| #[trigger] still_open(fs, v, n, i) ==> next.contains(i)
        }),
{
    let pairs = matching(fs, fs.len() as int).pairs;
    let next = stack.push(n - 1);
    lemma_sound(fs, fs.len() as int);
    assert(pairs[k].0 == n - 1 && n <= pairs[k].1);
    assert(still_open(fs, v, n, n - 1));
    assert forall|x: int| 0 <= x < next.len() implies still_open(fs, v, n, #[trigger] next[x]) by {
        if x < stack.len() {
            assert(still_open(fs, v, n - 1, stack[x]));
            lemma_other_stays_open(fs, v, n, stack[x]);
        }
    }
    assert forall|x: int, y: int| 0 <= x < y < next.len() implies next[x] < next[y] by {
        assert(still_open(fs, v, n - 1, stack[x]));
    }
    assert forall|i: int| #[trigger] still_open(fs, v, n, i) implies next.contains(i) by {
        if i == n - 1 {
            assert(next[stack.len() as int] == i);
        } else {
            lemma_other_stays_open(fs, v, n, i);
            let x = choose|x: int| 0 <= x < stack.len() && stack[x] == i;
            assert(next[x] == i);
        }
    }
}

/// A step with a closing tag that is shown: it closes the tag that was opened last.
proof fn lemma_closing_popped(
    fs: Seq<FragmentView>,
    v: spec_fn(Seq<char>) -> bool,
    n: int,
    k: int,
    stack: Seq<int>,
)
    requires
        fragment_errors(fs).len() == 0,
        0 < n <= fs.len(),
        holds(fs[n - 1].context, v),
        !fs[n - 1].opening,
        ({
            let pairs = matching(fs, fs.len() as int).pairs;
            0 <= k < pairs.len() && (pairs[k].0 == n - 1 || pairs[k].1 == n - 1)
        }),
        forall|x: int, y: int| 0 <= x < y < stack.len() ==> stack[x] < stack[y],
        forall|x: int| 0 <= x < stack.len() ==> still_open(fs, v, n - 1, #[trigger] stack[x]),
        forall|i: int| #[trigger] still_open(fs, v, n - 1, i) ==> stack.contains(i),
    ensures
        stack.len() > 0,
        fs[stack.last()].key == fs[n - 1].key,
        ({
            let next = stack.drop_last();
            &&& forall|x: int, y: int| 0 <= x < y < next.len() ==> next[x] < next[y]
            &&& forall|x: int| 0 <= x < next.len() ==> still_open(fs, v, n, #[trigger] next[x])
            &&& forall|i: int| #[trigger] still_open(fs, v, n, i) ==> next.contains(i)
        }),
{
    let pairs = matching(fs, fs.len() as int).pairs;
    let next = stack.drop_last();
    let top = stack.last();
    lemma_sound(fs, fs.len() as int);
    nothing_is_reported_iff_all_match(fs);
    let o = pairs[k].0;
    assert(pairs[k].1 == n - 1);
    assert(fits(fs[o], fs[n - 1]));
    assert(still_open(fs, v, n - 1, o));
    assert(stack.contains(o));
    let place = choose|x: int| 0 <= x < stack.len() && stack[x] == o;
    assert(still_open(fs, v, n - 1, stack[stack.len() - 1]));
    let j = choose|j: int|
        0 <= j < pairs.len() && (#[trigger] pairs[j]).0 == top && n - 1 <= pairs[j].1;
    if top != o {
        // The pair of the tag opened last would cross this one, and both are shown.
        assert(o < top);
        assert(k < j) by {
            assert(pairs[k].1 <= pairs[j].1);
        }
        assert(!crosses(fs, pairs[k], pairs[j]));
        exclusive_contexts_are_not_shown_together(fs[o].context, fs[top].context, v);
    }
    assert forall|x: int| 0 <= x < next.len() implies still_open(fs, v, n, #[trigger] next[x]) by {
        assert(still_open(fs, v, n - 1, stack[x]));
        assert(stack[x] < stack[stack.len() - 1]);
        let h = choose|h: int|
            0 <= h < pairs.len() && (#[trigger] pairs[h]).0 == stack[x] && n - 1 <= pairs[h].1;
        assert(h != k);
        assert(pairs[h].1 != pairs[k].1);
        assert(n <= pairs[h].1);
    }
    assert forall|i: int| #[trigger] still_open(fs, v, n, i) implies next.contains(i) by {
        let h = choose|h: int|
            0 <= h < pairs.len() && (#[trigger] pairs[h]).0 == i && n <= pairs[h].1;
        assert(h != k);
        assert(i != o);
        assert(i != n - 1);
        assert(n - 1 <= pairs[h].1);
        assert(still_open(fs, v, n - 1, i));
        let x = choose|x: int| 0 <= x < stack.len() && stack[x] == i;
        assert(next[x] == i);
    }
}

/// If the fragments have no errors, what is rendered of them is properly nested, whichever
/// conditions hold.
pub proof fn without_errors_shown_tags_are_nested(
    fs: Seq<FragmentView>,
    v: spec_fn(Seq<char>) -> bool,
)
    requires
        fragment_errors(fs).len() == 0,
    ensures
        properly_nested(fs, v),
{
    let n = fs.len() as int;
    lemma_open_tags(fs, v, n);
    lemma_sound(fs, n);
    let stack = open_tags(fs, v, n)->0;
    if stack.len() > 0 {
        assert(still_open(fs, v, n, stack[0]));
    }
    assert(stack == Seq::<int>::empty());
}

/// Whether two contexts set the same conditions, and under any condition are in the same scopes.
pub open spec fn agree(a: ContextView, b: ContextView) -> bool {
    a.conditions == b.conditions && (a.conditions.len() == 0 || a.scopes == b.scopes)
}

/// Whether all fragments are shown under the valuation `v`, in contexts that agree.
pub open spec fn all_together(fs: Seq<FragmentView>, v: spec_fn(Seq<char>) -> bool) -> bool {
    &&& forall|i: int, j: int|
        0 <= i < fs.len() && 0 <= j < fs.len() ==> agree(
            (#[trigger] fs[i]).context,
            (#[trigger] fs[j]).context,
        )
    &&& forall|i: int| 0 <= i < fs.len() ==> holds((#[trigger] fs[i]).context, v)
}

/// What holds of a matching that closes the tag opened last each time.
spec fn last_in_first_out(m: Matching) -> bool {
    &&& m.errors.len() == 0
    &&& forall|k: int, j: int|
        0 <= k < m.pairs.len() && 0 <= j < m.openings.len() ==> (#[trigger] m.openings[j]
            < #[trigger] m.pairs[k].0 || m.pairs[k].1 < m.openings[j])
    &&& forall|k: int, j: int|
        0 <= k < j < m.pairs.len() ==> !((#[trigger] m.pairs[k]).0 < (#[trigger] m.pairs[j]).0
            < m.pairs[k].1)
}

proof fn lemma_stack_is_matching(fs: Seq<FragmentView>, v: spec_fn(Seq<char>) -> bool, n: int)
    requires
        0 <= n <= fs.len(),
        all_together(fs, v),
        open_tags(fs, v, n) is Some,
    ensures
        open_tags(fs, v, n) == Some(matching(fs, n).openings),
        last_in_first_out(matching(fs, n)),
    decreases n,
{
    if n > 0 {
        let m = matching(fs, n - 1);
        let next = matching(fs, n);
        let f = fs[n - 1];
        assert(holds(f.context, v));
        lemma_stack_is_matching(fs, v, n - 1);
        lemma_sound(fs, n - 1);
        if !f.opening {
            let top = m.openings.len() - 1;
            assert(agree(fs[m.openings[top]].context, f.context));
            assert(fitting(fs, f)(m.openings.last()));
            assert(last_place(m.openings, fitting(fs, f)) == Some(top));
            assert(m.openings.remove(top) == m.openings.drop_last());
            assert(next.openings == m.openings.drop_last());
            assert(next.pairs == m.pairs.push((m.openings[top], n - 1)));
        } else {
            assert(next.openings == m.openings.push(n - 1));
            assert(next.pairs == m.pairs);
        }
    }
}

/// If all fragments are shown together, in contexts that agree, they have no errors exactly if
/// they are properly nested.
pub proof fn tags_shown_together_are_accepted_iff_nested(
    fs: Seq<FragmentView>,
    v: spec_fn(Seq<char>) -> bool,
)
    requires
        all_together(fs, v),
    ensures
        fragment_errors(fs).len() == 0 <==> properly_nested(fs, v),
{
    if fragment_errors(fs).len() == 0 {
        without_errors_shown_tags_are_nested(fs, v);
    }
    if properly_nested(fs, v) {
        lemma_stack_is_matching(fs, v, fs.len() as int);
        nothing_is_reported_iff_all_match(fs);
    }
}

// ---- Templates ----

proof fn lemma_mismatches(t: Tree, lo: int, hi: int)
    ensures
        mismatches_between(t, lo, hi).len() == 0 <==> forall|n: int|
            lo <= n < hi && t.is_node(n) ==> #[trigger] mismatch_at(t, n) is None,
    decreases hi - lo,
{
    if lo < hi {
        lemma_mismatches(t, lo, hi - 1);
        if mismatches_between(t, lo, hi).len() == 0 {
            assert forall|n: int| lo <= n < hi && t.is_node(n) implies #[trigger] mismatch_at(t, n)
                is None by {
                if n < hi - 1 {
                    assert(mismatches_between(t, lo, hi - 1).len() == 0);
                }
            }
        } else if mismatches_between(t, lo, hi - 1).len() == 0 {
            assert(mismatch_at(t, hi - 1) is Some);
        } else {
            let n = choose|n: int|
                lo <= n < hi - 1 && t.is_node(n) && #[trigger] mismatch_at(t, n) is Some;
            assert(mismatch_at(t, n) is Some);
        }
    }
}

/// A template without errors has no HTML element whose two tags have different names, and what is
/// rendered of its fragments is properly nested, whichever conditions hold.
pub proof fn template_without_errors_is_nested(
    t: Tree,
    root: int,
    v: spec_fn(Seq<char>) -> bool,
)
    requires
        t.valid(),
        t.is_node(root),
        errors_below(t, root).len() == 0,
    ensures
        forall|n: int|
            root <= n < t.end(root) && t.is_node(n) ==> #[trigger] mismatch_at(t, n) is None,
        properly_nested(fragments_between(t, root, t.end(root)), v),
{
    lemma_mismatches(t, root, t.end(root));
    without_errors_shown_tags_are_nested(fragments_between(t, root, t.end(root)), v);
}

/// The child of the node at `a` that the node at `n` is below is found on the way up from `n`.
proof fn lemma_towards(t: Tree, a: int, b: int, n: int)
    requires
        t.valid(),
        t.is_node(a),
        t.is_node(n),
        t.is_node(b),
        t.parent(b) == Some(a),
        t.encloses(b, n),
    ensures
        child_towards(t, a, n) == Some(b),
    decreases n,
{
    assert(b > 0);
    lemma_encloses_parent(t, b, n);
    let p = t.parent(n)->0;
    assert(0 <= p < n < t.end(p) && t.is_node(p));
    if b != n {
        lemma_towards(t, a, b, p);
        if p == a {
            assert(a < b);
            assert(t.encloses(b, a));
        }
    }
}

/// What an `if` around a node sets is part of the conditions of the node.
proof fn lemma_conditions_of_ancestor(t: Tree, a: int, x: int, n: int, i: int)
    requires
        t.valid(),
        t.is_node(x),
        t.encloses(a, x),
        t.kind(a) == SyntaxKind::TWIG_IF,
        0 <= i < branch_conditions(t, a, n).len(),
    ensures
        exists|j: int|
            0 <= j < conditions_from(t, x, n).len() && #[trigger] conditions_from(t, x, n)[j]
                == branch_conditions(t, a, n)[i],
    decreases x,
{
    let all = conditions_from(t, x, n);
    let here = if t.kind(x) == SyntaxKind::TWIG_IF {
        branch_conditions(t, x, n)
    } else {
        Seq::empty()
    };
    if x == a {
        assert(all[i] == branch_conditions(t, a, n)[i]);
    } else {
        lemma_encloses_parent(t, a, x);
        let p = t.parent(x)->0;
        assert(0 <= p < x && t.is_node(p));
        lemma_conditions_of_ancestor(t, a, p, n, i);
        let rest = conditions_from(t, p, n);
        let j = choose|j: int|
            0 <= j < rest.len() && #[trigger] rest[j] == branch_conditions(t, a, n)[i];
        assert(all == here + rest);
        assert(all[here.len() + j] == rest[j]);
    }
}

/// The condition of a header before the body that a node is counted to is part of the conditions of
/// the node. It holds there exactly if that body belongs to the header.
proof fn lemma_header_condition(t: Tree, a: int, b: int, n: int, h: int)
    requires
        t.valid(),
        t.is_node(a),
        t.kind(a) == SyntaxKind::TWIG_IF,
        t.is_node(n),
        t.is_node(b),
        t.parent(b) == Some(a),
        t.encloses(b, n),
        t.is_node(h),
        t.parent(h) == Some(a),
        t.counted_body(a, b) matches Some(x) && h < x,
        is_condition_header(t.kind(h)),
    ensures
        exists|j: int|
            0 <= j < context_of(t, n).conditions.len() && #[trigger] context_of(t, n).conditions[j]
                == (condition_text(t, h), t.header_of(a, t.counted_body(a, b)->0) == Some(h)),
{
    let kids = t.child_nodes(a);
    let test = t.condition_header_test();
    let x = t.counted_body(a, b)->0;
    let heads = t.children_before(a, x, test);
    let headers = t.children_before(a, x, t.header_test());
    lemma_towards(t, a, b, n);
    lemma_child_nodes(t, a);
    assert(header_limit(t, a, n) == x);
    lemma_filter_sorted(kids, |c: int| c < x && test(c));
    assert(kids.contains(h));
    assert(heads.contains(h));
    let i = choose|i: int| 0 <= i < heads.len() && heads[i] == h;
    let entry = branch_conditions(t, a, n)[i];
    assert(t.header_test()(h));
    lemma_filter_sorted(kids, |c: int| c < x && t.header_test()(c));
    assert(headers.contains(h));
    assert(headers.len() > 0);
    assert(entry == (condition_text(t, h), t.header_of(a, x) == Some(h)));
    assert(t.encloses(a, n)) by {
        lemma_encloses_parent(t, a, b);
        assert(b > 0);
        assert(a < b);
        assert(t.end(b) <= t.end(a));
    }
    lemma_conditions_of_ancestor(t, a, n, n, i);
    let all = context_of(t, n).conditions;
    let j = choose|j: int|
        0 <= j < conditions_from(t, n, n).len() && #[trigger] conditions_from(t, n, n)[j]
            == branch_conditions(t, a, n)[i];
    assert(all[j] == entry);
}

/// Two nodes in different branches of one `if` have contexts that exclude each other, if the
/// earlier of the two branches has a condition. The branch of a body without text is that of the
/// first body that it is taken for.
pub proof fn branches_exclude_each_other(t: Tree, a: int, b: int, c: int, n: int, m: int)
    requires
        t.valid(),
        t.is_node(a),
        t.kind(a) == SyntaxKind::TWIG_IF,
        t.is_node(n),
        t.is_node(m),
        t.is_node(b),
        t.is_node(c),
        t.parent(b) == Some(a),
        t.parent(c) == Some(a),
        t.kind(b) == SyntaxKind::BODY,
        t.kind(c) == SyntaxKind::BODY,
        t.encloses(b, n),
        t.encloses(c, m),
        ({
            let x = t.counted_body(a, b)->0;
            let y = t.counted_body(a, c)->0;
            &&& x < y
            &&& t.header_of(a, x) matches Some(h) && is_condition_header(t.kind(h))
            &&& t.header_of(a, y) != t.header_of(a, x)
        }),
    ensures
        exclusive(context_of(t, n), context_of(t, m)),
        exclusive(context_of(t, m), context_of(t, n)),
{
    let x = t.counted_body(a, b)->0;
    lemma_counted_body(t, a, b);
    lemma_counted_body(t, a, c);
    let h = t.header_of(a, x)->0;
    let kids = t.child_nodes(a);
    let headers = t.children_before(a, x, t.header_test());
    lemma_child_nodes(t, a);
    lemma_filter_sorted(kids, |z: int| z < x && t.header_test()(z));
    assert(headers[headers.len() - 1] == h);
    assert(kids.contains(h) && h < x);
    lemma_header_condition(t, a, b, n, h);
    lemma_header_condition(t, a, c, m, h);
    let p = context_of(t, n).conditions;
    let q = context_of(t, m).conditions;
    let i = choose|i: int| 0 <= i < p.len() && #[trigger] p[i] == (condition_text(t, h), true);
    let j = choose|j: int| 0 <= j < q.len() && #[trigger] q[j] == (condition_text(t, h), false);
    assert(contradict(p[i], q[j]));
    exclusion_is_symmetric(context_of(t, n), context_of(t, m));
}

} // verus!
