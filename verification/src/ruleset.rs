//! A whole rule file, and the resolution of a path to the rule that owns it.

use crate::pattern::compiles;
use crate::root::{lemma_trimmed, normalize_path, normalized, trim_root, trimmed};
use crate::rule::{
    lemma_parse_line, parse_line, views, without_comment, PatternError, Rule, RuleView,
};
use crate::text::{chars_of, just, lemma_split_step, same_text, split, words};
use vstd::prelude::*;
use vstd::slice::slice_subrange;

verus! {

/// What a ruleset holds.
pub ghost struct RulesetView {
    /// Where the rule text came from, if that is known.
    pub path: Option<Seq<char>>,
    /// The prefix that is taken off a path before it is matched.
    pub root: Seq<char>,
    /// The rules, in the order of the file.
    pub rules: Seq<RuleView>,
}

/// The rules of one rule file together with the root of the repository.
///
/// A ruleset is built once and only read after that: the order of its rules
/// is the order of the file, and it decides which rule wins.
#[derive(Debug)]
pub struct Ruleset {
    path: Option<String>,
    root: String,
    rules: Vec<Rule>,
}

/// The characters of an optional string.
pub open spec fn text_of(s: Option<String>) -> Option<Seq<char>> {
    match s {
        Some(s) => Some(s@),
        None => None,
    }
}

/// The view of an optional rule.
pub open spec fn rule_of(rule: Option<Rule>) -> Option<RuleView> {
    match rule {
        Some(rule) => Some(rule@),
        None => None,
    }
}

impl View for Ruleset {
    type V = RulesetView;

    closed spec fn view(&self) -> RulesetView {
        RulesetView {
            path: text_of(self.path),
            root: self.root@,
            rules: views(self.rules@),
        }
    }
}

/// The lines of a rule file: the fields between its line feeds. A carriage
/// return in front of a line feed stays with its line.
pub open spec fn lines(content: Seq<char>) -> Seq<Seq<char>> {
    split(content, just('\n'))
}

/// The rules that a sequence of lines declares, in order. The line at
/// index k has the number k + 1.
pub open spec fn rules_of(lines: Seq<Seq<char>>) -> Seq<RuleView>
    decreases lines.len(),
{
    if lines.len() == 0 {
        Seq::empty()
    } else {
        let before = rules_of(lines.drop_last());
        match parse_line(lines.last(), lines.len()) {
            Some(rule) => before.push(rule),
            None => before,
        }
    }
}

/// Whether `rules[at]` matches `path` and no rule after it does.
pub open spec fn is_last_match(rules: Seq<RuleView>, path: Seq<char>, at: int) -> bool {
    &&& 0 <= at < rules.len()
    &&& rules[at].matches(path)
    &&& forall|j: int| at < j < rules.len() ==> !(#[trigger] rules[j]).matches(path)
}

/// Whether no rule of `rules` matches `path`.
pub open spec fn none_matches(rules: Seq<RuleView>, path: Seq<char>) -> bool {
    forall|j: int| 0 <= j < rules.len() ==> !(#[trigger] rules[j]).matches(path)
}

/// The last of `rules` that matches `path`, if any does.
pub open spec fn last_matching(rules: Seq<RuleView>, path: Seq<char>) -> Option<RuleView>
    decreases rules.len(),
{
    if rules.len() == 0 {
        None
    } else if rules.last().matches(path) {
        Some(rules.last())
    } else {
        last_matching(rules.drop_last(), path)
    }
}

/// The pattern that stands for every path not claimed otherwise: `*`.
pub open spec fn catch_all() -> Seq<char> {
    seq!['*']
}

/// Whether `rules[at]` has the pattern `*` and no rule before it has.
pub open spec fn is_first_catch_all(rules: Seq<RuleView>, at: int) -> bool {
    &&& 0 <= at < rules.len()
    &&& rules[at].pattern == catch_all()
    &&& forall|j: int| 0 <= j < at ==> (#[trigger] rules[j]).pattern != catch_all()
}

/// Whether no rule of `rules` has the pattern `*`.
pub open spec fn no_catch_all(rules: Seq<RuleView>) -> bool {
    forall|j: int| 0 <= j < rules.len() ==> (#[trigger] rules[j]).pattern != catch_all()
}

/// The first of `rules` whose pattern is `*`, if there is one.
pub open spec fn first_catch_all(rules: Seq<RuleView>) -> Option<RuleView>
    decreases rules.len(),
{
    if rules.len() == 0 {
        None
    } else if rules.first().pattern == catch_all() {
        Some(rules.first())
    } else {
        first_catch_all(rules.drop_first())
    }
}

impl RulesetView {
    /// What holds of every ruleset: the root ends in no separator, every
    /// rule is well formed and has a pattern that compiles, and the rules
    /// stand in the order of their lines.
    pub open spec fn well_formed(self) -> bool {
        &&& self.root.len() > 0 ==> self.root.last() != '/'
        &&& forall|i: int|
            0 <= i < self.rules.len() ==> (#[trigger] self.rules[i]).well_formed() && compiles(
                self.rules[i].pattern,
            )
        &&& forall|i: int, j: int|
            0 <= i < j < self.rules.len() ==> (#[trigger] self.rules[i]).line_number < (
            #[trigger] self.rules[j]).line_number
    }

    /// The rule that owns a path: the last rule that matches the path once
    /// it is normalized.
    pub open spec fn rule_for(self, path: Seq<char>) -> Option<RuleView> {
        last_matching(self.rules, normalized(self.root, path))
    }

    /// The rule to fall back on: the first whose pattern is `*`.
    pub open spec fn default_rule(self) -> Option<RuleView> {
        first_catch_all(self.rules)
    }
}

/// Whether `rules[at]` is the first rule whose pattern does not compile.
pub open spec fn first_refused(rules: Seq<RuleView>, at: int) -> bool {
    &&& 0 <= at < rules.len()
    &&& !compiles(rules[at].pattern)
    &&& forall|i: int| 0 <= i < at ==> compiles(#[trigger] rules[i].pattern)
}

/// What building a ruleset gives. Where every pattern of the file compiles
/// it is the ruleset of all the declared rules, in the order of the file.
/// Otherwise nothing is built, and the error names the first pattern that
/// does not compile.
pub open spec fn built(
    result: Result<Ruleset, PatternError>,
    content: Seq<char>,
    root: Seq<char>,
    path: Option<Seq<char>>,
) -> bool {
    let rules = rules_of(lines(content));
    match result {
        Ok(set) => {
            &&& forall|i: int| 0 <= i < rules.len() ==> compiles(#[trigger] rules[i].pattern)
            &&& set@ == (RulesetView { path, root: trimmed(root), rules })
        },
        Err(e) => exists|at: int|
            {
                &&& first_refused(rules, at)
                &&& e.pattern@ == #[trigger] rules[at].pattern
                &&& e.line_number == rules[at].line_number
            },
    }
}

/// Whether `rule` is what the line with its number declares.
pub open spec fn is_declared_in(rule: RuleView, lines: Seq<Seq<char>>) -> bool {
    &&& 1 <= rule.line_number <= lines.len()
    &&& parse_line(lines[rule.line_number - 1], rule.line_number) == Some(rule)
}

/// Whether a line declares a rule: it has a word outside its comment.
pub open spec fn declares_rule(line: Seq<char>) -> bool {
    words(without_comment(line)).len() > 0
}

/// The test for a line that declares a rule, as a value.
pub open spec fn declaring() -> spec_fn(Seq<char>) -> bool {
    |line: Seq<char>| declares_rule(line)
}

/// Reading one more line adds the rule it declares, if it declares one.
pub proof fn lemma_rules_of_step(lines: Seq<Seq<char>>, k: int)
    requires
        0 <= k < lines.len(),
    ensures
        rules_of(lines.take(k + 1)) == match parse_line(lines[k], (k + 1) as nat) {
            Some(rule) => rules_of(lines.take(k)).push(rule),
            None => rules_of(lines.take(k)),
        },
{
    assert(lines.take(k + 1).drop_last() =~= lines.take(k));
}

/// The rules of the first k lines open the rules of all the lines.
pub proof fn lemma_rules_of_prefix(lines: Seq<Seq<char>>, k: int)
    requires
        0 <= k <= lines.len(),
    ensures
        rules_of(lines.take(k)).is_prefix_of(rules_of(lines)),
    decreases lines.len() - k,
{
    if k == lines.len() {
        assert(lines.take(k) =~= lines);
    } else {
        lemma_rules_of_step(lines, k);
        lemma_rules_of_prefix(lines, k + 1);
        let a = rules_of(lines.take(k));
        let b = rules_of(lines.take(k + 1));
        let c = rules_of(lines);
        assert(a.is_prefix_of(b));
        assert(a =~= c.subrange(0, a.len() as int));
    }
}

/// A file gives one rule for each of its lines that declares one.
pub proof fn lemma_rule_count(lines: Seq<Seq<char>>)
    ensures
        rules_of(lines).len() == lines.filter(declaring()).len(),
    decreases lines.len(),
{
    reveal(Seq::filter);
    if lines.len() > 0 {
        lemma_rule_count(lines.drop_last());
    }
}

/// Every rule of a file is the one that its own line declares: the line
/// with the rule's number exists and, read alone, gives that rule. So the
/// pattern of a rule is the first word of its line, as it stands there. The
/// rules follow each other in the order of their lines.
pub proof fn lemma_rules_of(lines: Seq<Seq<char>>)
    ensures
        forall|i: int|
            0 <= i < rules_of(lines).len() ==> is_declared_in(#[trigger] rules_of(lines)[i], lines)
                && rules_of(lines)[i].well_formed(),
        forall|i: int, j: int|
            0 <= i < j < rules_of(lines).len() ==> (#[trigger] rules_of(lines)[i]).line_number < (
            #[trigger] rules_of(lines)[j]).line_number,
    decreases lines.len(),
{
    if lines.len() > 0 {
        let front = lines.drop_last();
        let before = rules_of(front);
        let rules = rules_of(lines);
        lemma_rules_of(front);
        lemma_parse_line(lines.last(), lines.len());
        assert forall|i: int| 0 <= i < rules.len() implies is_declared_in(#[trigger] rules[i], lines)
            && rules[i].well_formed() by {
            if i < before.len() {
                assert(rules[i] == before[i]);
                assert(is_declared_in(before[i], front));
                assert(front[before[i].line_number - 1] == lines[before[i].line_number - 1]);
            }
        }
        assert forall|i: int, j: int| 0 <= i < j < rules.len() implies (
        #[trigger] rules[i]).line_number < (#[trigger] rules[j]).line_number by {
            assert(rules[i] == before[i]);
            assert(is_declared_in(before[i], front));
            if j < before.len() {
                assert(rules[j] == before[j]);
            }
        }
    }
}

/// No declared rule is lost: the rule that a line declares is among the
/// rules of the file.
pub proof fn lemma_declared_rules_are_kept(lines: Seq<Seq<char>>, k: int)
    requires
        0 <= k < lines.len(),
        parse_line(lines[k], (k + 1) as nat) is Some,
    ensures
        rules_of(lines).contains(parse_line(lines[k], (k + 1) as nat)->0),
{
    let rule = parse_line(lines[k], (k + 1) as nat)->0;
    let upto = rules_of(lines.take(k + 1));
    lemma_rules_of_step(lines, k);
    lemma_rules_of_prefix(lines, k + 1);
    assert(upto.last() == rule);
    assert(rules_of(lines)[upto.len() - 1] == rule);
}

/// The last matching rule is a rule of the sequence that matches, with no
/// matching rule after it; and there is none only where no rule matches.
pub proof fn lemma_last_matching(rules: Seq<RuleView>, path: Seq<char>)
    ensures
        match last_matching(rules, path) {
            Some(rule) => exists|at: int|
                is_last_match(rules, path, at) && #[trigger] rules[at] == rule,
            None => none_matches(rules, path),
        },
    decreases rules.len(),
{
    if rules.len() > 0 {
        let n: int = rules.len() - 1;
        if rules.last().matches(path) {
            assert(is_last_match(rules, path, n) && rules[n] == rules.last());
        } else {
            let front = rules.drop_last();
            lemma_last_matching(front, path);
            match last_matching(front, path) {
                Some(rule) => {
                    let at: int = choose|at: int|
                        is_last_match(front, path, at) && #[trigger] front[at] == rule;
                    assert forall|j: int| at < j < rules.len() implies !(
                    #[trigger] rules[j]).matches(path) by {
                        if j < n {
                            assert(front[j] == rules[j]);
                        }
                    }
                    assert(is_last_match(rules, path, at) && rules[at] == rule);
                },
                None => {
                    assert forall|j: int| 0 <= j < rules.len() implies !(
                    #[trigger] rules[j]).matches(path) by {
                        if j < n {
                            assert(front[j] == rules[j]);
                        }
                    }
                },
            }
        }
    }
}

/// The last rule wins: a rule that matches a path, with no matching rule
/// after it, is the answer, whatever matches before it.
pub proof fn lemma_last_rule_wins(rules: Seq<RuleView>, path: Seq<char>, at: int)
    requires
        is_last_match(rules, path, at),
    ensures
        last_matching(rules, path) == Some(rules[at]),
    decreases rules.len(),
{
    if at < rules.len() - 1 {
        let front = rules.drop_last();
        assert(!rules[rules.len() - 1].matches(path));
        assert(front[at] == rules[at]);
        assert forall|j: int| at < j < front.len() implies !(#[trigger] front[j]).matches(
            path,
        ) by {
            assert(front[j] == rules[j]);
        }
        lemma_last_rule_wins(front, path, at);
    }
}

/// Of two rules that match the same path the earlier one is never the
/// answer, unless the later one says the same: the answer stands at the
/// place of the later rule or after it.
pub proof fn lemma_later_rule_wins(
    rules: Seq<RuleView>,
    path: Seq<char>,
    earlier: int,
    later: int,
)
    requires
        0 <= earlier < later < rules.len(),
        rules[earlier].matches(path),
        rules[later].matches(path),
    ensures
        exists|at: int|
            later <= at < rules.len() && last_matching(rules, path) == Some(#[trigger] rules[at]),
{
    lemma_last_matching(rules, path);
    match last_matching(rules, path) {
        Some(rule) => {
            let at: int = choose|at: int|
                is_last_match(rules, path, at) && #[trigger] rules[at] == rule;
            assert(later <= at);
        },
        None => {
            assert(!rules[later].matches(path));
        },
    }
}

/// The fallback rule is a rule of the sequence whose pattern is `*`, with
/// no such rule before it; and there is none only where no rule has that
/// pattern.
pub proof fn lemma_first_catch_all(rules: Seq<RuleView>)
    ensures
        match first_catch_all(rules) {
            Some(rule) => exists|at: int|
                is_first_catch_all(rules, at) && #[trigger] rules[at] == rule,
            None => no_catch_all(rules),
        },
    decreases rules.len(),
{
    if rules.len() > 0 {
        if rules.first().pattern == catch_all() {
            assert(is_first_catch_all(rules, 0) && rules[0] == rules.first());
        } else {
            let tail = rules.drop_first();
            lemma_first_catch_all(tail);
            match first_catch_all(tail) {
                Some(rule) => {
                    let at: int = choose|at: int|
                        is_first_catch_all(tail, at) && #[trigger] tail[at] == rule;
                    assert forall|j: int| 0 <= j < at + 1 implies (#[trigger] rules[j]).pattern
                        != catch_all() by {
                        if j > 0 {
                            assert(tail[j - 1] == rules[j]);
                        }
                    }
                    assert(is_first_catch_all(rules, at + 1) && rules[at + 1] == rule);
                },
                None => {
                    assert forall|j: int| 0 <= j < rules.len() implies (#[trigger] rules[j]).pattern
                        != catch_all() by {
                        if j > 0 {
                            assert(tail[j - 1] == rules[j]);
                        }
                    }
                },
            }
        }
    }
}

/// The fallback rule answers for a path only as its last matching rule:
/// where the rule for a path is the fallback rule, that rule matches the
/// path and no rule after it does.
pub proof fn lemma_fallback_answers_last(set: RulesetView, path: Seq<char>)
    requires
        set.default_rule() is Some,
        set.rule_for(path) == set.default_rule(),
    ensures
        exists|at: int|
            is_last_match(set.rules, normalized(set.root, path), at) && #[trigger] set.rules[at]
                == set.default_rule()->0,
{
    lemma_last_matching(set.rules, normalized(set.root, path));
}

/// Where the lines of `text` begin and end.
fn line_bounds(text: &[char]) -> (bounds: Vec<(usize, usize)>)
    ensures
        bounds@.len() == lines(text@).len(),
        forall|k: int|
            0 <= k < bounds@.len() ==> {
                &&& (#[trigger] bounds@[k]).0 <= bounds@[k].1 <= text@.len()
                &&& text@.subrange(bounds@[k].0 as int, bounds@[k].1 as int) == lines(text@)[k]
            },
{
    let n: usize = text.len();
    let mut bounds: Vec<(usize, usize)> = Vec::new();
    let mut start: usize = 0;
    let mut i: usize = 0;
    while i < n
        invariant
            n == text@.len(),
            start <= i <= n,
            split(text@.take(i as int), just('\n')).len() == bounds@.len() + 1,
            split(text@.take(i as int), just('\n')).last() == text@.subrange(
                start as int,
                i as int,
            ),
            forall|k: int|
                0 <= k < bounds@.len() ==> {
                    &&& (#[trigger] bounds@[k]).0 <= bounds@[k].1 <= i
                    &&& text@.subrange(bounds@[k].0 as int, bounds@[k].1 as int) == split(
                        text@.take(i as int),
                        just('\n'),
                    )[k]
                },
        decreases n - i,
    {
        proof {
            lemma_split_step(text@, just('\n'), i as int);
        }
        if text[i] == '\n' {
            bounds.push((start, i));
            start = i + 1;
        }
        i += 1;
    }
    proof {
        assert(text@.take(n as int) =~= text@);
    }
    bounds.push((start, n));
    bounds
}

impl Clone for Ruleset {
    fn clone(&self) -> (copy: Self)
        ensures
            copy@ == self@,
    {
        proof {
            use_type_invariant(self);
        }
        let path = match &self.path {
            Some(path) => Some(path.clone()),
            None => None,
        };
        Ruleset { path, root: self.root.clone(), rules: self.rules() }
    }
}

impl Ruleset {
    /// Every ruleset is well formed.
    #[verifier::type_invariant]
    spec fn is_well_formed(self) -> bool {
        self@.well_formed()
    }

    /// Builds the ruleset of a rule file from its text. The root loses the
    /// separators at its end; every line is read, with its number, and the
    /// rules are kept in the order of the file, one for each line that
    /// declares one.
    pub fn build(content: String, root: String, path: Option<String>) -> (result: Result<
        Ruleset,
        PatternError,
    >)
        ensures
            built(result, content@, root@, text_of(path)),
            result matches Ok(set) ==> set@.well_formed() && set@.rules.len() == lines(
                content@,
            ).filter(declaring()).len(),
            result matches Ok(set) ==> forall|i: int|
                0 <= i < set@.rules.len() ==> is_declared_in(
                    #[trigger] set@.rules[i],
                    lines(content@),
                ),
    {
        let ghost old_root = root;
        let root = trim_root(root.as_str());
        let chars = chars_of(content.as_str());
        let text = chars.as_slice();
        let bounds = line_bounds(text);
        let ghost all = lines(content@);
        let mut rules: Vec<Rule> = Vec::new();
        let mut k: usize = 0;
        while k < bounds.len()
            invariant
                text@ == content@,
                all == lines(content@),
                k <= bounds@.len() == all.len(),
                forall|j: int|
                    0 <= j < bounds@.len() ==> {
                        &&& (#[trigger] bounds@[j]).0 <= bounds@[j].1 <= text@.len()
                        &&& text@.subrange(bounds@[j].0 as int, bounds@[j].1 as int) == all[j]
                    },
                views(rules@) == rules_of(all.take(k as int)),
                forall|i: int|
                    0 <= i < rules@.len() ==> compiles((#[trigger] rules@[i])@.pattern),
            decreases bounds@.len() - k,
        {
            let from: usize = bounds[k].0;
            let to: usize = bounds[k].1;
            let ghost before = views(rules@);
            proof {
                lemma_rules_of_step(all, k as int);
                lemma_rules_of_prefix(all, k + 1);
            }
            match Rule::from_chars(slice_subrange(text, from, to), k + 1) {
                Ok(Some(rule)) => {
                    rules.push(rule);
                },
                Ok(None) => {},
                Err(e) => {
                    proof {
                        let at: int = before.len() as int;
                        let found = rules_of(all.take(k + 1));
                        assert(found[at] == rules_of(all)[at]);
                        assert forall|i: int| 0 <= i < at implies compiles(
                            #[trigger] rules_of(all)[i].pattern,
                        ) by {
                            assert(rules_of(all)[i] == found[i]);
                            assert(found[i] == (rules@[i])@);
                        }
                    }
                    return Err(e);
                },
            }
            k += 1;
        }
        proof {
            assert(all.take(k as int) =~= all);
            assert forall|i: int| 0 <= i < rules_of(all).len() implies compiles(
                #[trigger] rules_of(all)[i].pattern,
            ) by {
                assert(rules_of(all)[i] == (rules@[i])@);
            }
            lemma_rules_of(all);
            lemma_rule_count(all);
            lemma_trimmed(old_root@);
        }
        Ok(Ruleset { path, root, rules })
    }

    /// The rule to fall back on: the first rule of the file whose pattern
    /// is `*`.
    pub fn default_rule(&self) -> (rule: Option<Rule>)
        ensures
            rule_of(rule) == self@.default_rule(),
            match rule {
                Some(found) => exists|at: int|
                    is_first_catch_all(self@.rules, at) && #[trigger] self@.rules[at] == found@,
                None => no_catch_all(self@.rules),
            },
    {
        let ghost views = self@.rules;
        let mut i: usize = 0;
        proof {
            assert(views.skip(0) =~= views);
        }
        while i < self.rules.len()
            invariant
                views == self@.rules,
                i <= self.rules@.len(),
                first_catch_all(views) == first_catch_all(views.skip(i as int)),
            decreases self.rules@.len() - i,
        {
            proof {
                reveal_strlit("*");
                assert("*"@ =~= catch_all());
                assert(views.skip(i as int).drop_first() =~= views.skip(i + 1));
            }
            if same_text(self.rules[i].pattern(), "*") {
                proof {
                    lemma_first_catch_all(views);
                }
                return Some(self.rules[i].clone());
            }
            i += 1;
        }
        proof {
            lemma_first_catch_all(views);
        }
        None
    }

    /// The rule that owns a path: the rules are asked from the last to the
    /// first, and the first of them to match the normalized path is the
    /// answer. Where none matches there is no answer.
    pub fn rule_for_path(&self, path: String) -> (rule: Option<Rule>)
        ensures
            rule_of(rule) == self@.rule_for(path@),
            match rule {
                Some(found) => exists|at: int|
                    is_last_match(self@.rules, normalized(self@.root, path@), at)
                        && #[trigger] self@.rules[at] == found@,
                None => none_matches(self@.rules, normalized(self@.root, path@)),
            },
    {
        let normalized_path = normalize_path(self.root.as_str(), path.as_str());
        let ghost views = self@.rules;
        let mut i: usize = self.rules.len();
        proof {
            assert(views.take(i as int) =~= views);
        }
        while i > 0
            invariant
                views == self@.rules,
                i <= self.rules@.len(),
                normalized_path@ == normalized(self@.root, path@),
                last_matching(views, normalized_path@) == last_matching(
                    views.take(i as int),
                    normalized_path@,
                ),
            decreases i,
        {
            i -= 1;
            proof {
                assert(views.take(i + 1).drop_last() =~= views.take(i as int));
            }
            if self.rules[i].is_match_str(normalized_path.as_str()) {
                proof {
                    lemma_last_matching(views, normalized_path@);
                }
                return Some(self.rules[i].clone());
            }
        }
        proof {
            lemma_last_matching(views, normalized_path@);
        }
        None
    }

    /// The owners of a path: those of the rule that owns it.
    ///
    /// The answer is empty both where no rule matches the path and where the
    /// rule that matches names no owner. To tell the two apart, ask
    /// `rule_for_path`.
    pub fn owners_for_path(&self, path: String) -> (owners: Vec<String>)
        ensures
            owners.deep_view() == match self@.rule_for(path@) {
                Some(rule) => rule.owners,
                None => Seq::empty(),
            },
    {
        match self.rule_for_path(path) {
            Some(rule) => rule.owners(),
            None => {
                let none: Vec<String> = Vec::new();
                none
            },
        }
    }

    /// Where the rule text came from, if that is known.
    pub fn path(&self) -> (path: Option<&str>)
        ensures
            match path {
                Some(path) => self@.path == Some(path@),
                None => self@.path is None,
            },
    {
        match &self.path {
            Some(path) => Some(path.as_str()),
            None => None,
        }
    }

    /// The prefix that is taken off a path before it is matched.
    pub fn root(&self) -> (root: &str)
        ensures
            root@ == self@.root,
            self@.well_formed(),
    {
        proof {
            use_type_invariant(self);
        }
        self.root.as_str()
    }

    /// A copy of the rules, in the order of the file.
    pub fn rules(&self) -> (rules: Vec<Rule>)
        ensures
            views(rules@) == self@.rules,
            self@.well_formed(),
    {
        proof {
            use_type_invariant(self);
        }
        let mut rules: Vec<Rule> = Vec::new();
        let mut i: usize = 0;
        while i < self.rules.len()
            invariant
                i <= self.rules@.len(),
                views(rules@) == self@.rules.take(i as int),
            decreases self.rules@.len() - i,
        {
            let rule = self.rules[i].clone();
            rules.push(rule);
            proof {
                assert(self@.rules.take(i + 1) =~= self@.rules.take(i as int).push(
                    self@.rules[i as int],
                ));
            }
            i += 1;
        }
        rules
    }
}

} // verus!
