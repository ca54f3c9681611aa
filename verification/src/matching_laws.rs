//! Which tags are matched and what is reported, said by the fragments alone.
use vstd::prelude::*;
use crate::html_fragments::{
    ContextView, DYNAMIC_HTML_TAG_PREFIX, ErrorView, FragmentView, contradict, crosses, crossings,
    crossings_of, errors_below, exclusive, fitting, fragment_errors, fragments_between, last_place,
    leftover_errors, lemma_last_place, matching, mismatch_error, mismatches_between,
    resembling,
};
use crate::kind::SyntaxKind;
use crate::nesting::{holds, nothing_is_reported_iff_all_match, pairs_match};
use crate::tree::{TextRange, Tree};

verus! {

// ---- Contexts ----

/// Two contexts exclude each other exactly if a condition of the one has the text of a condition of
/// the other and the opposite value.
pub proof fn contexts_exclude_by_opposite_values(a: ContextView, b: ContextView)
    ensures
        exclusive(a, b) <==> exists|i: int, j: int|
            0 <= i < a.conditions.len() && 0 <= j < b.conditions.len() && (
            #[trigger] a.conditions[i]).0 == (#[trigger] b.conditions[j]).0 && a.conditions[i].1
                != b.conditions[j].1,
{
    if exclusive(a, b) {
        let (i, j) = choose|i: int, j: int|
            0 <= i < a.conditions.len() && 0 <= j < b.conditions.len() && contradict(
                #[trigger] a.conditions[i],
                #[trigger] b.conditions[j],
            );
        assert(a.conditions[i].0 == b.conditions[j].0);
    }
    if exists|i: int, j: int|
        0 <= i < a.conditions.len() && 0 <= j < b.conditions.len() && (#[trigger] a.conditions[i]).0
            == (#[trigger] b.conditions[j]).0 && a.conditions[i].1 != b.conditions[j].1 {
        let (i, j) = choose|i: int, j: int|
            0 <= i < a.conditions.len() && 0 <= j < b.conditions.len() && (
            #[trigger] a.conditions[i]).0 == (#[trigger] b.conditions[j]).0 && a.conditions[i].1
                != b.conditions[j].1;
        assert(contradict(a.conditions[i], b.conditions[j]));
    }
}

/// Contexts that do not exclude each other, nor themselves, can be shown together.
pub proof fn other_contexts_can_be_shown_together(a: ContextView, b: ContextView)
    requires
        !exclusive(a, b),
        !exclusive(a, a),
        !exclusive(b, b),
    ensures
        exists|v: spec_fn(Seq<char>) -> bool| holds(a, v) && #[trigger] holds(b, v),
{
    let v = |text: Seq<char>|
        (exists|i: int|
            0 <= i < a.conditions.len() && (#[trigger] a.conditions[i]).0 == text
                && a.conditions[i].1) || (exists|i: int|
            0 <= i < b.conditions.len() && (#[trigger] b.conditions[i]).0 == text
                && b.conditions[i].1);
    contexts_exclude_by_opposite_values(a, b);
    contexts_exclude_by_opposite_values(a, a);
    contexts_exclude_by_opposite_values(b, b);
    assert forall|i: int| 0 <= i < a.conditions.len() implies v((#[trigger] a.conditions[i]).0)
        == a.conditions[i].1 by {}
    assert forall|i: int| 0 <= i < b.conditions.len() implies v((#[trigger] b.conditions[i]).0)
        == b.conditions[i].1 by {}
    assert(holds(a, v) && holds(b, v));
}

// ---- Which tags belong together ----

/// Whether two tags have the same key under the same conditions, and in the same scopes if there
/// are conditions.
pub open spec fn belong_together(o: FragmentView, c: FragmentView) -> bool {
    &&& o.key == c.key
    &&& o.context.conditions == c.context.conditions
    &&& o.context.conditions.len() > 0 ==> o.context.scopes == c.context.scopes
}

/// Whether two tags have the same key, or both keys come from Twig expressions.
pub open spec fn can_be_meant(o: FragmentView, c: FragmentView) -> bool {
    o.key == c.key || (DYNAMIC_HTML_TAG_PREFIX@.is_prefix_of(o.key)
        && DYNAMIC_HTML_TAG_PREFIX@.is_prefix_of(c.key))
}

proof fn lemma_last_place_is(s: Seq<int>, p: spec_fn(int) -> bool, k: int)
    ensures
        last_place(s, p) == Some(k) <==> 0 <= k < s.len() && p(s[k]) && forall|j: int|
            k < j < s.len() ==> !p(#[trigger] s[j]),
        last_place(s, p) is None <==> forall|j: int| 0 <= j < s.len() ==> !p(#[trigger] s[j]),
{
    lemma_last_place(s, p);
}

/// Before the first fragment nothing waits, is paired or reported.
pub proof fn nothing_is_there_at_first(fs: Seq<FragmentView>)
    ensures
        matching(fs, 0).openings.len() == 0,
        matching(fs, 0).pairs.len() == 0,
        matching(fs, 0).errors.len() == 0,
{
}

/// An opening tag waits and changes nothing else.
pub proof fn opening_tags_wait(fs: Seq<FragmentView>, i: int)
    requires
        0 <= i < fs.len(),
        fs[i].opening,
    ensures
        matching(fs, i + 1).openings == matching(fs, i).openings.push(i),
        matching(fs, i + 1).pairs == matching(fs, i).pairs,
        matching(fs, i + 1).errors == matching(fs, i).errors,
{
}

/// A closing tag is paired with the last waiting tag that belongs together with it, and that one
/// waits no longer. There is no error.
pub proof fn closing_tag_takes_the_last_that_belongs(fs: Seq<FragmentView>, i: int, k: int)
    requires
        0 <= i < fs.len(),
        !fs[i].opening,
        0 <= k < matching(fs, i).openings.len(),
        belong_together(fs[matching(fs, i).openings[k]], fs[i]),
        forall|j: int|
            k < j < matching(fs, i).openings.len() ==> !belong_together(
                fs[#[trigger] matching(fs, i).openings[j]],
                fs[i],
            ),
    ensures
        matching(fs, i + 1).openings == matching(fs, i).openings.remove(k),
        matching(fs, i + 1).pairs == matching(fs, i).pairs.push((matching(fs, i).openings[k], i)),
        matching(fs, i + 1).errors == matching(fs, i).errors,
{
    let m = matching(fs, i);
    let p = fitting(fs, fs[i]);
    assert forall|x: int| #[trigger] p(x) == belong_together(fs[x], fs[i]) by {}
    assert forall|j: int| k < j < m.openings.len() implies !p(#[trigger] m.openings[j]) by {
        assert(!belong_together(fs[m.openings[j]], fs[i]));
    }
    assert(p(m.openings[k]));
    lemma_last_place_is(m.openings, p, k);
}

/// A closing tag that belongs together with no waiting tag is an error. The last waiting tag that
/// can be meant is named in it and waits no longer.
pub proof fn closing_tag_that_belongs_nowhere_is_reported(fs: Seq<FragmentView>, i: int, k: int)
    requires
        0 <= i < fs.len(),
        !fs[i].opening,
        forall|j: int|
            0 <= j < matching(fs, i).openings.len() ==> !belong_together(
                fs[#[trigger] matching(fs, i).openings[j]],
                fs[i],
            ),
        0 <= k < matching(fs, i).openings.len(),
        can_be_meant(fs[matching(fs, i).openings[k]], fs[i]),
        forall|j: int|
            k < j < matching(fs, i).openings.len() ==> !can_be_meant(
                fs[#[trigger] matching(fs, i).openings[j]],
                fs[i],
            ),
    ensures
        matching(fs, i + 1).openings == matching(fs, i).openings.remove(k),
        matching(fs, i + 1).pairs == matching(fs, i).pairs,
        matching(fs, i + 1).errors == matching(fs, i).errors.push(
            mismatch_error(fs[matching(fs, i).openings[k]], fs[i]),
        ),
{
    let m = matching(fs, i);
    let p = fitting(fs, fs[i]);
    let q = resembling(fs, fs[i]);
    assert forall|j: int| 0 <= j < m.openings.len() implies !p(#[trigger] m.openings[j]) by {
        assert(!belong_together(fs[m.openings[j]], fs[i]));
    }
    assert forall|j: int| k < j < m.openings.len() implies !q(#[trigger] m.openings[j]) by {
        assert(!can_be_meant(fs[m.openings[j]], fs[i]));
    }
    assert(q(m.openings[k]));
    lemma_last_place_is(m.openings, p, k);
    lemma_last_place_is(m.openings, q, k);
}

/// A closing tag for which no waiting tag can be meant is an error by itself.
pub proof fn lone_closing_tag_is_reported(fs: Seq<FragmentView>, i: int)
    requires
        0 <= i < fs.len(),
        !fs[i].opening,
        forall|j: int|
            0 <= j < matching(fs, i).openings.len() ==> !can_be_meant(
                fs[#[trigger] matching(fs, i).openings[j]],
                fs[i],
            ),
    ensures
        matching(fs, i + 1).openings == matching(fs, i).openings,
        matching(fs, i + 1).pairs == matching(fs, i).pairs,
        matching(fs, i + 1).errors.len() == matching(fs, i).errors.len() + 1,
        matching(fs, i + 1).errors.drop_last() == matching(fs, i).errors,
        is_plain(
            matching(fs, i + 1).errors.last(),
            fs[i].range,
            "an opening <"@ + fs[i].name + "> under the same Twig conditions"@,
            SyntaxKind::TK_LESS_THAN_SLASH,
        ),
{
    let m = matching(fs, i);
    let p = fitting(fs, fs[i]);
    let q = resembling(fs, fs[i]);
    assert forall|j: int| 0 <= j < m.openings.len() implies !q(#[trigger] m.openings[j]) && !p(
        m.openings[j],
    ) by {
        assert(!can_be_meant(fs[m.openings[j]], fs[i]));
    }
    lemma_last_place_is(m.openings, p, 0);
    lemma_last_place_is(m.openings, q, 0);
    assert(matching(fs, i + 1).errors.drop_last() == m.errors);
}

// ---- Errors ----

/// Whether the error is at `range`, expects `expected`, found `found`, and says no more.
pub open spec fn is_plain(
    error: ErrorView,
    range: TextRange,
    expected: Seq<char>,
    found: SyntaxKind,
) -> bool {
    &&& error.range == range
    &&& error.expected == expected
    &&& error.found == Some(found)
    &&& error.secondary is None
    &&& error.message is None
}

/// The error for a closing tag that does not match the opening tag meant is at the closing tag and
/// points at the opening tag. The reason is the first of these that holds: the keys differ, the
/// conditions differ, the scopes differ.
pub proof fn mismatch_names_both_tags_and_the_reason(o: FragmentView, c: FragmentView)
    ensures
        ({
            let error = mismatch_error(o, c);
            let start = "closing </"@ + c.name + "> does not match opening <"@ + o.name + ">: "@;
            &&& error.range == c.range
            &&& error.found == Some(SyntaxKind::TK_LESS_THAN_SLASH)
            &&& error.expected == "an opening <"@ + c.name + "> under the same Twig conditions"@
            &&& error.secondary == Some((o.range, "opening <"@ + o.name + "> is here"@))
            &&& o.key != c.key ==> error.message == Some(
                start + "different tag-name expressions"@,
            )
            &&& o.key == c.key && o.context.conditions != c.context.conditions ==> error.message
                == Some(start + "different Twig conditions"@)
            &&& o.key == c.key && o.context.conditions == c.context.conditions ==> error.message
                == Some(start + "different Twig scopes"@)
        }),
{
}

/// What is reported of the fragments: the errors of closing tags, then one error for each opening
/// tag that still waits, at that tag, then the errors of pairs that cross.
pub proof fn left_over_tags_are_reported(fs: Seq<FragmentView>, k: int)
    requires
        0 <= k < matching(fs, fs.len() as int).openings.len(),
    ensures
        ({
            let m = matching(fs, fs.len() as int);
            let o = fs[m.openings[k]];
            let all = fragment_errors(fs);
            &&& all.len() >= m.errors.len() + m.openings.len()
            &&& all.take(m.errors.len() as int) == m.errors
            &&& is_plain(
                all[m.errors.len() + k],
                o.range,
                "a closing </"@ + o.name + "> under the same Twig conditions"@,
                SyntaxKind::TK_LESS_THAN,
            )
        }),
{
    let m = matching(fs, fs.len() as int);
    assert(fragment_errors(fs).take(m.errors.len() as int) == m.errors);
    assert(fragment_errors(fs)[m.errors.len() + k] == leftover_errors(fs, m.openings)[k]);
}

/// The errors of closing tags come first among all that is reported of the fragments.
pub proof fn errors_of_closing_tags_come_first(fs: Seq<FragmentView>)
    ensures
        ({
            let m = matching(fs, fs.len() as int);
            &&& m.errors.len() + m.openings.len() <= fragment_errors(fs).len()
            &&& fragment_errors(fs).take(m.errors.len() as int) == m.errors
        }),
{
    let m = matching(fs, fs.len() as int);
    assert(fragment_errors(fs).take(m.errors.len() as int) == m.errors);
}

/// Whether the pairs begin and end in turn, so that neither is inside the other, and their contexts
/// have no condition with opposite values.
pub open spec fn interleave(fs: Seq<FragmentView>, l: (int, int), r: (int, int)) -> bool {
    &&& l.0 < r.0 && r.0 < l.1 && l.1 < r.1
    &&& forall|i: int, j: int|
        0 <= i < fs[l.0].context.conditions.len() && 0 <= j < fs[r.0].context.conditions.len() && (
        #[trigger] fs[l.0].context.conditions[i]).0 == (
        #[trigger] fs[r.0].context.conditions[j]).0 ==> fs[l.0].context.conditions[i].1
            == fs[r.0].context.conditions[j].1
}

proof fn lemma_interleave(fs: Seq<FragmentView>, l: (int, int), r: (int, int))
    ensures
        crosses(fs, l, r) <==> interleave(fs, l, r),
{
    contexts_exclude_by_opposite_values(fs[l.0].context, fs[r.0].context);
}

/// Among the errors of a pair against later ones there is one, at its closing tag, for each later
/// pair that it interleaves with.
pub proof fn each_crossing_is_one_error(
    fs: Seq<FragmentView>,
    pairs: Seq<(int, int)>,
    i: int,
    j: int,
)
    requires
        0 <= i < j < pairs.len(),
    ensures
        crossings_of(fs, pairs, i, i + 1).len() == 0,
        !interleave(fs, pairs[i], pairs[j]) ==> crossings_of(fs, pairs, i, j + 1) == crossings_of(
            fs,
            pairs,
            i,
            j,
        ),
        interleave(fs, pairs[i], pairs[j]) ==> {
            let errors = crossings_of(fs, pairs, i, j + 1);
            &&& errors.len() == crossings_of(fs, pairs, i, j).len() + 1
            &&& errors.drop_last() == crossings_of(fs, pairs, i, j)
            &&& is_plain(
                errors.last(),
                fs[pairs[i].1].range,
                "properly nested HTML tags under the same Twig conditions"@,
                SyntaxKind::TK_LESS_THAN_SLASH,
            )
        },
{
    lemma_interleave(fs, pairs[i], pairs[j]);
    if interleave(fs, pairs[i], pairs[j]) {
        assert(crossings_of(fs, pairs, i, j + 1).drop_last() == crossings_of(fs, pairs, i, j));
    }
}

/// The crossing errors of all pairs are those of each pair against the later ones, in order.
pub proof fn crossings_go_by_pairs(fs: Seq<FragmentView>, pairs: Seq<(int, int)>, i: int)
    requires
        0 <= i < pairs.len(),
    ensures
        crossings(fs, pairs, 0).len() == 0,
        crossings(fs, pairs, i + 1) == crossings(fs, pairs, i) + crossings_of(
            fs,
            pairs,
            i,
            pairs.len() as int,
        ),
{
}

/// After the errors of closing tags and of tags left over, the crossing errors of all pairs end
/// what is reported. There are none without pairs.
pub proof fn crossings_come_last(fs: Seq<FragmentView>)
    ensures
        ({
            let m = matching(fs, fs.len() as int);
            let n = m.pairs.len() as int;
            &&& fragment_errors(fs).len() == m.errors.len() + m.openings.len() + crossings(
                fs,
                m.pairs,
                n,
            ).len()
            &&& fragment_errors(fs).skip((m.errors.len() + m.openings.len()) as int) == crossings(
                fs,
                m.pairs,
                n,
            )
            &&& n == 0 ==> crossings(fs, m.pairs, n).len() == 0
        }),
{
    let m = matching(fs, fs.len() as int);
    let n = m.pairs.len() as int;
    assert(fragment_errors(fs).skip((m.errors.len() + m.openings.len()) as int) == crossings(
        fs,
        m.pairs,
        n,
    ));
}

/// What is reported of a template are the mismatches of all its elements and then what is reported
/// of all its fragments.
pub proof fn everything_below_is_reported(t: Tree, root: int)
    requires
        t.valid(),
        t.is_node(root),
    ensures
        ({
            let mismatches = mismatches_between(t, root, t.end(root));
            let k = mismatches.len() as int;
            &&& k <= errors_below(t, root).len()
            &&& errors_below(t, root).take(k) == mismatches
            &&& errors_below(t, root).skip(k) == fragment_errors(
                fragments_between(t, root, t.end(root)),
            )
        }),
{
    let mismatches = mismatches_between(t, root, t.end(root));
    let k = mismatches.len() as int;
    assert(errors_below(t, root).take(k) == mismatches);
    assert(errors_below(t, root).skip(k) == fragment_errors(
        fragments_between(t, root, t.end(root)),
    ));
}

/// Two tags whose contexts differ in some condition, in its text or its value, are never paired.
pub proof fn tags_under_different_conditions_are_not_paired(
    fs: Seq<FragmentView>,
    k: int,
    j: int,
)
    requires
        0 <= k < matching(fs, fs.len() as int).pairs.len(),
    ensures
        ({
            let (o, c) = matching(fs, fs.len() as int).pairs[k];
            &&& fs[o].key == fs[c].key
            &&& fs[o].context.conditions.len() == fs[c].context.conditions.len()
            &&& 0 <= j < fs[o].context.conditions.len() ==> fs[o].context.conditions[j]
                == fs[c].context.conditions[j] && fs[o].context.scopes == fs[c].context.scopes
        }),
{
    pairs_match(fs, k);
}

/// An opening tag and a closing tag after it with the same key, and nothing else, give exactly one
/// error if their contexts differ in a condition, and none if the contexts are the same.
pub proof fn two_tags_match_iff_conditions_do(fs: Seq<FragmentView>)
    requires
        fs.len() == 2,
        fs[0].opening,
        !fs[1].opening,
        fs[0].key == fs[1].key,
    ensures
        belong_together(fs[0], fs[1]) ==> fragment_errors(fs).len() == 0,
        !belong_together(fs[0], fs[1]) ==> fragment_errors(fs) == seq![
            mismatch_error(fs[0], fs[1]),
        ],
{
    opening_tags_wait(fs, 0);
    let m = matching(fs, 1);
    assert(m.openings == seq![0int]);
    let n = matching(fs, 2);
    if belong_together(fs[0], fs[1]) {
        closing_tag_takes_the_last_that_belongs(fs, 1, 0);
        assert(n.openings.len() == 0);
        nothing_is_reported_iff_all_match(fs);
    } else {
        closing_tag_that_belongs_nowhere_is_reported(fs, 1, 0);
        assert(n.errors == seq![mismatch_error(fs[0], fs[1])]);
        assert(n.openings.len() == 0);
        assert(n.pairs.len() == 0);
        assert(fragment_errors(fs) == seq![mismatch_error(fs[0], fs[1])]);
    }
}

} // verus!
