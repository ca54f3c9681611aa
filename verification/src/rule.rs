//! What rules report and what they are configured with.
use vstd::prelude::*;
use crate::text::same_text;
use crate::tree::TextRange;

verus! {

/// How bad a finding is.
#[derive(Clone, Copy, Debug, PartialEq, Eq, Structural)]
pub enum Severity {
    Error,
    Warning,
}

/// A remark on a range of the template.
#[derive(Debug)]
pub struct CheckNote {
    pub range: TextRange,
    pub message: String,
}

/// A finding of a rule.
#[derive(Debug)]
pub struct CheckResult {
    pub rule_name: String,
    pub severity: Severity,
    pub message: String,
    pub primary: Option<CheckNote>,
    pub secondary: Vec<CheckNote>,
}

/// A remark with its message as characters.
pub struct Note {
    pub range: TextRange,
    pub message: Seq<char>,
}

/// A finding with its texts as characters.
pub struct Finding {
    pub rule_name: Seq<char>,
    pub severity: Severity,
    pub message: Seq<char>,
    pub primary: Option<Note>,
    pub secondary: Seq<Note>,
}

impl View for CheckNote {
    type V = Note;

    open spec fn view(&self) -> Note {
        Note { range: self.range, message: self.message@ }
    }
}

impl View for CheckResult {
    type V = Finding;

    open spec fn view(&self) -> Finding {
        Finding {
            rule_name: self.rule_name@,
            severity: self.severity,
            message: self.message@,
            primary: match self.primary {
                Some(note) => Some(note@),
                None => None,
            },
            secondary: Seq::new(self.secondary@.len(), |i: int| self.secondary@[i]@),
        }
    }
}

/// The findings of a list with their texts as characters.
pub open spec fn findings(results: Seq<CheckResult>) -> Seq<Finding> {
    Seq::new(results.len(), |i: int| results[i]@)
}

impl CheckResult {
    /// A finding of the rule `rule_name` without remarks.
    pub fn new(rule_name: &str, severity: Severity, message: &str) -> (result: CheckResult)
        ensures
            result@ == (Finding {
                rule_name: rule_name@,
                severity,
                message: message@,
                primary: None,
                secondary: Seq::empty(),
            }),
    {
        let result = CheckResult {
            rule_name: rule_name.to_owned(),
            severity,
            message: message.to_owned(),
            primary: None,
            secondary: Vec::new(),
        };
        assert(result@.secondary == Seq::<Note>::empty());
        result
    }

    /// The finding with its main remark.
    pub fn primary_note(self, range: TextRange, message: String) -> (result: CheckResult)
        ensures
            result@ == (Finding { primary: Some(Note { range, message: message@ }), ..self@ }),
    {
        CheckResult { primary: Some(CheckNote { range, message }), ..self }
    }

    /// The finding with one more remark.
    pub fn secondary_note(self, range: TextRange, message: String) -> (result: CheckResult)
        ensures
            result@ == (Finding {
                secondary: self@.secondary.push(Note { range, message: message@ }),
                ..self@
            }),
    {
        let mut secondary = self.secondary;
        let ghost before = secondary@;
        secondary.push(CheckNote { range, message });
        let result = CheckResult {
            rule_name: self.rule_name,
            severity: self.severity,
            message: self.message,
            primary: self.primary,
            secondary,
        };
        assert(result@.secondary == self@.secondary.push(Note { range, message: message@ }));
        result
    }
}

/// The name of the feature flag for each deprecation tag.
pub struct FeatureFlags {
    entries: Vec<(String, String)>,
}

spec fn flags_of(entries: Seq<(String, String)>) -> Map<Seq<char>, Seq<char>>
    decreases entries.len(),
{
    if entries.len() == 0 {
        Map::empty()
    } else {
        flags_of(entries.drop_first()).insert(entries[0].0@, entries[0].1@)
    }
}

impl View for FeatureFlags {
    type V = Map<Seq<char>, Seq<char>>;

    closed spec fn view(&self) -> Map<Seq<char>, Seq<char>> {
        flags_of(self.entries@)
    }
}

proof fn lemma_flags_absent(entries: Seq<(String, String)>, tag: Seq<char>)
    requires
        forall|i: int| 0 <= i < entries.len() ==> (#[trigger] entries[i]).0@ != tag,
    ensures
        !flags_of(entries).contains_key(tag),
    decreases entries.len(),
{
    if entries.len() > 0 {
        assert(entries[0].0@ != tag);
        let rest = entries.drop_first();
        assert forall|i: int| 0 <= i < rest.len() implies (#[trigger] rest[i]).0@ != tag by {
            assert(rest[i] == entries[i + 1]);
        }
        lemma_flags_absent(rest, tag);
    }
}

proof fn lemma_flags_present(entries: Seq<(String, String)>, at: int)
    requires
        0 <= at < entries.len(),
        forall|i: int| 0 <= i < at ==> (#[trigger] entries[i]).0@ != entries[at].0@,
    ensures
        flags_of(entries).contains_key(entries[at].0@),
        flags_of(entries)[entries[at].0@] == entries[at].1@,
    decreases entries.len(),
{
    if at > 0 {
        assert(entries[0].0@ != entries[at].0@);
        let rest = entries.drop_first();
        assert(rest[at - 1] == entries[at]);
        assert forall|i: int| 0 <= i < at - 1 implies (#[trigger] rest[i]).0@ != rest[at
            - 1].0@ by {
            assert(rest[i] == entries[i + 1]);
        }
        lemma_flags_present(rest, at - 1);
    }
}

proof fn lemma_flags_pushed(entries: Seq<(String, String)>, entry: (String, String))
    requires
        forall|i: int| 0 <= i < entries.len() ==> (#[trigger] entries[i]).0@ != entry.0@,
    ensures
        flags_of(entries.push(entry)) == flags_of(entries).insert(entry.0@, entry.1@),
    decreases entries.len(),
{
    let all = entries.push(entry);
    if entries.len() > 0 {
        let rest = entries.drop_first();
        assert(all.drop_first() == rest.push(entry));
        assert(entries[0].0@ != entry.0@);
        assert forall|i: int| 0 <= i < rest.len() implies (#[trigger] rest[i]).0@ != entry.0@ by {
            assert(rest[i] == entries[i + 1]);
        }
        lemma_flags_pushed(rest, entry);
        assert(flags_of(all) == flags_of(entries).insert(entry.0@, entry.1@));
    } else {
        assert(all.drop_first() == entries);
    }
}

proof fn lemma_flags_replaced(entries: Seq<(String, String)>, at: int, entry: (String, String))
    requires
        0 <= at < entries.len(),
        entries[at].0@ == entry.0@,
        forall|i: int| 0 <= i < at ==> (#[trigger] entries[i]).0@ != entry.0@,
    ensures
        flags_of(entries.update(at, entry)) == flags_of(entries).insert(entry.0@, entry.1@),
    decreases entries.len(),
{
    let all = entries.update(at, entry);
    let rest = entries.drop_first();
    if at > 0 {
        assert(all.drop_first() == rest.update(at - 1, entry));
        assert(entries[0].0@ != entry.0@);
        assert forall|i: int| 0 <= i < at - 1 implies (#[trigger] rest[i]).0@ != entry.0@ by {
            assert(rest[i] == entries[i + 1]);
        }
        assert(rest[at - 1] == entries[at]);
        lemma_flags_replaced(rest, at - 1, entry);
        assert(flags_of(all) == flags_of(entries).insert(entry.0@, entry.1@));
    } else {
        assert(all.drop_first() == rest);
        assert(flags_of(all) == flags_of(entries).insert(entry.0@, entry.1@));
    }
}

impl FeatureFlags {
    /// No deprecation tag has a flag.
    pub fn new() -> (flags: FeatureFlags)
        ensures
            flags@ == Map::<Seq<char>, Seq<char>>::empty(),
    {
        FeatureFlags { entries: Vec::new() }
    }

    /// Sets the flag for `tag`.
    pub fn insert(&mut self, tag: String, flag: String)
        ensures
            final(self)@ == old(self)@.insert(tag@, flag@),
    {
        let ghost before = self.entries@;
        let mut i: usize = 0;
        while i < self.entries.len()
            invariant
                i <= self.entries.len(),
                self.entries@ == before,
                before == old(self).entries@,
                forall|k: int| 0 <= k < i ==> (#[trigger] before[k]).0@ != tag@,
            decreases self.entries.len() - i,
        {
            if self.entries[i].0 == tag {
                proof {
                    lemma_flags_replaced(before, i as int, (tag, flag));
                }
                self.entries.set(i, (tag, flag));
                return ;
            }
            i += 1;
        }
        proof {
            lemma_flags_pushed(before, (tag, flag));
        }
        self.entries.push((tag, flag));
    }

    /// The flag for `tag`.
    pub fn get(&self, tag: &str) -> (flag: Option<&String>)
        ensures
            match flag {
                Some(f) => self@.contains_key(tag@) && self@[tag@] == f@,
                None => !self@.contains_key(tag@),
            },
    {
        let mut i: usize = 0;
        while i < self.entries.len()
            invariant
                i <= self.entries.len(),
                forall|k: int| 0 <= k < i ==> (#[trigger] self.entries[k]).0@ != tag@,
            decreases self.entries.len() - i,
        {
            if same_text(self.entries[i].0.as_str(), tag) {
                proof {
                    lemma_flags_present(self.entries@, i as int);
                }
                return Some(&self.entries[i].1);
            }
            i += 1;
        }
        proof {
            lemma_flags_absent(self.entries@, tag@);
        }
        None
    }
}

/// The settings for Twig.
pub struct TwigConfig {
    pub deprecated_feature_flags: FeatureFlags,
}

/// The settings of a run.
pub struct Config {
    pub twig: TwigConfig,
}

/// What a rule knows of the run that it is part of.
pub struct RuleRunContext {
    config: Config,
}

impl RuleRunContext {
    /// The settings of the run.
    pub closed spec fn settings(&self) -> Config {
        self.config
    }

    /// A run with the given settings.
    pub fn new(config: Config) -> (ctx: RuleRunContext)
        ensures
            ctx.settings() == config,
    {
        RuleRunContext { config }
    }

    /// The settings of the run.
    pub fn config(&self) -> (config: &Config)
        ensures
            *config == self.settings(),
    {
        &self.config
    }
}

} // verus!
