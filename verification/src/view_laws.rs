//! The views that contracts speak of leave nothing out and change nothing.
use vstd::prelude::*;
use crate::html_fragments::{
    Context, Fragment, ParseError, condition_views, error_views, fragment_views, name_view,
    plain_error,
};
use crate::kind::SyntaxKind;
use crate::nodes::{int_of, ints};
use crate::rule::{CheckResult, findings};
use crate::text::{byte_len, views};
use crate::tree::{Step, TextRange, WalkStep, step_views};

verus! {

/// A list of findings is seen as it is: all of them, in order, with all that they say.
pub proof fn findings_are_seen_as_they_are(results: Seq<CheckResult>, i: int, j: int)
    requires
        0 <= i < results.len(),
        0 <= j < results[i].secondary@.len(),
    ensures
        findings(results).len() == results.len(),
        ({
            let seen = findings(results)[i];
            let result = results[i];
            &&& seen.rule_name == result.rule_name@
            &&& seen.severity == result.severity
            &&& seen.message == result.message@
            &&& seen.primary is Some == result.primary is Some
            &&& result.primary matches Some(note) ==> (seen.primary->0).range == note.range && (
            seen.primary->0).message == note.message@
            &&& seen.secondary.len() == result.secondary@.len()
            &&& seen.secondary[j].range == result.secondary@[j].range
            &&& seen.secondary[j].message == result.secondary@[j].message@
        }),
{
}

/// The same for findings without secondary remarks.
pub proof fn findings_without_remarks_are_seen(results: Seq<CheckResult>, i: int)
    requires
        0 <= i < results.len(),
    ensures
        findings(results).len() == results.len(),
        findings(results)[i].rule_name == results[i].rule_name@,
        findings(results)[i].severity == results[i].severity,
        findings(results)[i].message == results[i].message@,
        findings(results)[i].primary is Some == results[i].primary is Some,
        results[i].primary matches Some(note) ==> (findings(results)[i].primary->0).range
            == note.range && (findings(results)[i].primary->0).message == note.message@,
        findings(results)[i].secondary.len() == results[i].secondary@.len(),
{
}

/// A list of errors is seen as it is: all of them, in order, with all that they say.
pub proof fn errors_are_seen_as_they_are(errors: Seq<ParseError>, i: int)
    requires
        0 <= i < errors.len(),
    ensures
        error_views(errors).len() == errors.len(),
        ({
            let seen = error_views(errors)[i];
            let error = errors[i];
            &&& seen.range == error.range
            &&& seen.found == error.found
            &&& seen.expected == error.expected@
            &&& seen.secondary is Some == error.secondary is Some
            &&& error.secondary matches Some(s) ==> (seen.secondary->0).0 == s.0 && (
            seen.secondary->0).1 == s.1@
            &&& seen.message is Some == error.message is Some
            &&& error.message matches Some(m) ==> seen.message->0 == m@
        }),
{
}

/// A context is seen as it is: all conditions and scopes, in order.
pub proof fn contexts_are_seen_as_they_are(context: Context, i: int)
    ensures
        context@.conditions.len() == context.conditions@.len(),
        0 <= i < context.conditions@.len() ==> context@.conditions[i].0 == context.conditions@[i].0@
            && context@.conditions[i].1 == context.conditions@[i].1,
        context@.scopes == context.scopes@,
        context@.conditions == condition_views(context.conditions@),
{
}

/// A list of fragments is seen as it is: all of them, in order, with all that they hold.
pub proof fn fragments_are_seen_as_they_are(fragments: Seq<Fragment>, i: int)
    requires
        0 <= i < fragments.len(),
    ensures
        fragment_views(fragments).len() == fragments.len(),
        fragment_views(fragments)[i].name == fragments[i].name@,
        fragment_views(fragments)[i].key == fragments[i].key@,
        fragment_views(fragments)[i].context == fragments[i].context@,
        fragment_views(fragments)[i].range == fragments[i].range,
        fragment_views(fragments)[i].opening == fragments[i].opening,
{
}

/// The name of a tag, strings, positions and steps are seen as they are.
pub proof fn plain_values_are_seen_as_they_are(
    name: Option<(String, String, TextRange)>,
    strings: Seq<String>,
    positions: Seq<usize>,
    position: Option<usize>,
    steps: Seq<WalkStep>,
    i: int,
)
    ensures
        name_view(name) is Some == name is Some,
        name matches Some(n) ==> name_view(name) == Some((n.0@, n.1@, n.2)),
        views(strings).len() == strings.len(),
        0 <= i < strings.len() ==> views(strings)[i] == strings[i]@,
        ints(positions).len() == positions.len(),
        0 <= i < positions.len() ==> ints(positions)[i] == positions[i],
        int_of(position) is Some == position is Some,
        position matches Some(p) ==> int_of(position) == Some(p as int),
        step_views(steps).len() == steps.len(),
        0 <= i < steps.len() ==> match steps[i] {
            WalkStep::EnterNode(raw) => step_views(steps)[i] == Step::EnterNode(raw),
            WalkStep::EnterToken(raw, text) => step_views(steps)[i] == Step::EnterToken(raw, text@),
            WalkStep::Leave => step_views(steps)[i] == Step::Leave,
        },
{
}

/// Texts are measured in the bytes of their UTF-8 encoding.
pub proof fn texts_are_measured_in_bytes(text: Seq<char>)
    ensures
        byte_len(text) == vstd::utf8::encode_utf8(text).len(),
{
}

/// An error says what it is made of, and which kind of tag was found.
pub proof fn plain_errors_say_what_they_are_made_of(
    range: TextRange,
    expected: Seq<char>,
    opening: bool,
)
    ensures
        plain_error(range, expected, opening).range == range,
        plain_error(range, expected, opening).expected == expected,
        opening ==> plain_error(range, expected, opening).found == Some(SyntaxKind::TK_LESS_THAN),
        !opening ==> plain_error(range, expected, opening).found == Some(
            SyntaxKind::TK_LESS_THAN_SLASH,
        ),
        plain_error(range, expected, opening).secondary is None,
        plain_error(range, expected, opening).message is None,
{
}

/// A range covers another one exactly if it begins no later and ends no earlier.
pub proof fn ranges_cover_by_their_ends(outer: TextRange, inner: TextRange)
    ensures
        outer.covers(inner) <==> outer.start <= inner.start && inner.end <= outer.end,
{
}

} // verus!
