//! One rule of a rule file: a pattern, the owners it names, and the line it
//! was written on.

use crate::engine::{compiled, source_of};
use crate::pattern::{compiles, pattern_matches, pattern_to_regex, regex_source};
use crate::text::{
    chars_of, find, is_white_space, is_word_of, lemma_position, lemma_words, position, words,
    words_of,
};
use regex::Regex;
use vstd::prelude::*;
use vstd::slice::slice_subrange;

verus! {

/// A pattern whose regular expression could not be compiled, and the line
/// that holds it.
#[derive(Debug, PartialEq, Eq)]
pub struct PatternError {
    pub pattern: String,
    pub line_number: usize,
}

impl Clone for PatternError {
    fn clone(&self) -> (copy: Self)
        ensures
            copy == *self,
    {
        PatternError { pattern: self.pattern.clone(), line_number: self.line_number }
    }
}

/// What a rule says, apart from how it is matched.
pub ghost struct RuleView {
    /// The pattern as it stands in the file.
    pub pattern: Seq<char>,
    /// The owners, in the order of the file. There may be none.
    pub owners: Seq<Seq<char>>,
    /// The line of the file, counted from 1.
    pub line_number: nat,
}

/// Whether `s` can stand as a pattern or as an owner in a rule file: it is
/// not empty and holds neither white space nor a `#`.
pub open spec fn is_token(s: Seq<char>) -> bool {
    &&& s.len() > 0
    &&& forall|j: int| 0 <= j < s.len() ==> !is_white_space(#[trigger] s[j]) && s[j] != '#'
}

impl RuleView {
    /// Whether the rule applies to a path.
    pub open spec fn matches(self, path: Seq<char>) -> bool {
        pattern_matches(self.pattern, path)
    }

    /// Whether the rule can have been read from a line of a rule file: its
    /// line number counts from 1, and its pattern and owners are tokens.
    pub open spec fn well_formed(self) -> bool {
        &&& self.line_number >= 1
        &&& is_token(self.pattern)
        &&& forall|k: int| 0 <= k < self.owners.len() ==> is_token(#[trigger] self.owners[k])
    }
}

/// A pattern with its compiled matcher, its owners and its line number.
///
/// The matcher is compiled from the pattern when the rule is made and never
/// changes after that.
#[derive(Debug)]
pub struct Rule {
    pattern: String,
    regex: Regex,
    owners: Vec<String>,
    line_number: usize,
}

impl View for Rule {
    type V = RuleView;

    closed spec fn view(&self) -> RuleView {
        RuleView {
            pattern: self.pattern@,
            owners: self.owners.deep_view(),
            line_number: self.line_number as nat,
        }
    }
}

/// The views of a sequence of rules.
pub open spec fn views(rules: Seq<Rule>) -> Seq<RuleView> {
    rules.map_values(|rule: Rule| rule@)
}

/// The text of a line before its comment: everything up to the first `#`.
pub open spec fn without_comment(line: Seq<char>) -> Seq<char> {
    line.take(position(line, 0, '#'))
}

/// What a line declares. A line with no word outside its comment declares
/// nothing; on any other line the first word is the pattern and the words
/// after it are the owners.
pub open spec fn parse_line(line: Seq<char>, line_number: nat) -> Option<RuleView> {
    let tokens = words(without_comment(line));
    if tokens.len() == 0 {
        None
    } else {
        Some(RuleView { pattern: tokens.first(), owners: tokens.drop_first(), line_number })
    }
}

/// What making the rule `wanted` gives: the rule where its pattern compiles,
/// and otherwise the error that names the pattern and the line.
pub open spec fn is_made(result: Result<Rule, PatternError>, wanted: RuleView) -> bool {
    match result {
        Ok(rule) => compiles(wanted.pattern) && rule@ == wanted,
        Err(e) => !compiles(wanted.pattern) && e.pattern@ == wanted.pattern && e.line_number
            == wanted.line_number,
    }
}

/// What reading a line gives: nothing where the line declares nothing, and
/// otherwise what making the declared rule gives.
pub open spec fn is_read(
    result: Result<Option<Rule>, PatternError>,
    line: Seq<char>,
    line_number: nat,
) -> bool {
    match parse_line(line, line_number) {
        None => result matches Ok(None),
        Some(wanted) => match result {
            Ok(Some(rule)) => is_made(Ok(rule), wanted),
            Ok(None) => false,
            Err(e) => is_made(Err(e), wanted),
        },
    }
}

/// The rule that a line declares carries the number of the line, its
/// pattern is the first word of the line before the comment, its owners are
/// the words after that one, and none of them is empty or holds white space
/// or a `#`.
pub proof fn lemma_parse_line(line: Seq<char>, line_number: nat)
    ensures
        parse_line(line, line_number) is Some <==> words(without_comment(line)).len() > 0,
        parse_line(line, line_number) matches Some(rule) ==> {
            &&& rule.line_number == line_number
            &&& rule.pattern == words(without_comment(line))[0]
            &&& rule.owners == words(without_comment(line)).skip(1)
            &&& is_token(rule.pattern)
            &&& forall|k: int| 0 <= k < rule.owners.len() ==> is_token(#[trigger] rule.owners[k])
        },
{
    let text = without_comment(line);
    let tokens = words(text);
    lemma_words(text);
    lemma_position(line, 0, '#');
    if tokens.len() > 0 {
        assert forall|i: int| 0 <= i < tokens.len() implies is_token(#[trigger] tokens[i]) by {
            let token = tokens[i];
            assert(is_word_of(token, text));
            assert forall|j: int| 0 <= j < token.len() implies !is_white_space(#[trigger] token[j])
                && token[j] != '#' by {
                let at: int = choose|at: int| 0 <= at < text.len() && text[at] == token[j];
                assert(line[at] == token[j]);
            }
        }
        let rule = parse_line(line, line_number)->0;
        assert(rule.owners =~= tokens.skip(1));
        assert forall|k: int| 0 <= k < rule.owners.len() implies is_token(
            #[trigger] rule.owners[k],
        ) by {
            assert(rule.owners[k] == tokens[k + 1]);
        }
    }
}

/// A copy of each string of `strings`.
fn clone_strings(strings: &Vec<String>) -> (copy: Vec<String>)
    ensures
        copy.deep_view() == strings.deep_view(),
{
    let mut copy: Vec<String> = Vec::new();
    let mut i: usize = 0;
    while i < strings.len()
        invariant
            i <= strings.len(),
            copy.deep_view() == strings.deep_view().take(i as int),
        decreases strings.len() - i,
    {
        copy.push(strings[i].clone());
        proof {
            assert(strings.deep_view().take(i + 1) =~= strings.deep_view().take(i as int).push(
                strings[i as int]@,
            ));
        }
        i += 1;
    }
    copy
}

impl Clone for Rule {
    fn clone(&self) -> (copy: Self)
        ensures
            copy@ == self@,
    {
        proof {
            use_type_invariant(self);
        }
        Rule {
            pattern: self.pattern.clone(),
            regex: self.regex.clone(),
            owners: clone_strings(&self.owners),
            line_number: self.line_number,
        }
    }
}

impl Rule {
    /// The matcher is the one compiled from the pattern.
    #[verifier::type_invariant]
    spec fn matcher_is_compiled(self) -> bool {
        &&& compiled(regex_source(self.pattern@)) == Ok::<Regex, regex::Error>(self.regex)
        &&& source_of(self.regex) == regex_source(self.pattern@)
    }

    /// Makes a rule and compiles its pattern. Fails, naming the pattern and
    /// the line, exactly when the pattern's regular expression is refused.
    pub fn new(pattern: String, owners: Vec<String>, line_number: usize) -> (result: Result<
        Rule,
        PatternError,
    >)
        ensures
            is_made(
                result,
                (RuleView {
                    pattern: pattern@,
                    owners: owners.deep_view(),
                    line_number: line_number as nat,
                }),
            ),
    {
        match pattern_to_regex(pattern.as_str()) {
            Ok(regex) => Ok(Rule { pattern, regex, owners, line_number }),
            Err(_) => Err(PatternError { pattern, line_number }),
        }
    }

    /// Reads one line of a rule file, given as an owned string.
    pub fn from_line(line: String, line_number: usize) -> (result: Result<
        Option<Rule>,
        PatternError,
    >)
        ensures
            is_read(result, line@, line_number as nat),
    {
        Rule::from_line_str(line.as_str(), line_number)
    }

    /// Reads one line of a rule file: the comment is dropped, and of the
    /// words that are left the first is the pattern, as it stands in the
    /// line, the others the owners.
    pub fn from_line_str(line: &str, line_number: usize) -> (result: Result<
        Option<Rule>,
        PatternError,
    >)
        ensures
            is_read(result, line@, line_number as nat),
            result matches Ok(Some(rule)) ==> rule@.pattern == words(
                without_comment(line@),
            ).first(),
    {
        let chars = chars_of(line);
        Rule::from_chars(chars.as_slice(), line_number)
    }

    /// Reads one line of a rule file, given as its characters.
    pub fn from_chars(line: &[char], line_number: usize) -> (result: Result<
        Option<Rule>,
        PatternError,
    >)
        ensures
            is_read(result, line@, line_number as nat),
    {
        let end: usize = find(line, 0, '#');
        let mut tokens = words_of(slice_subrange(line, 0, end));
        if tokens.len() == 0 {
            return Ok(None);
        }
        let ghost all = tokens.deep_view();
        let pattern = tokens.remove(0);
        proof {
            assert(tokens.deep_view() =~= all.drop_first());
        }
        match Rule::new(pattern, tokens, line_number) {
            Ok(rule) => Ok(Some(rule)),
            Err(e) => Err(e),
        }
    }

    /// Whether the rule applies to a path, given as an owned string.
    pub fn is_match(&self, path: String) -> (matched: bool)
        ensures
            matched == self@.matches(path@),
    {
        self.is_match_str(path.as_str())
    }

    /// Whether the rule applies to a path: whether its matcher finds a
    /// match in it. A pattern that is not tied to the start may match
    /// anywhere in the path, and one that is not tied to the end may stop
    /// short of it.
    pub fn is_match_str(&self, path: &str) -> (matched: bool)
        ensures
            matched == self@.matches(path@),
    {
        proof {
            use_type_invariant(self);
        }
        self.regex.is_match(path)
    }

    /// The pattern, as it was written. It is one that compiles: there is
    /// no rule without a matcher.
    pub fn pattern(&self) -> (pattern: &str)
        ensures
            pattern@ == self@.pattern,
            compiles(self@.pattern),
    {
        proof {
            use_type_invariant(self);
        }
        self.pattern.as_str()
    }

    /// The owners, in the order in which they were written.
    pub fn owners(&self) -> (owners: Vec<String>)
        ensures
            owners.deep_view() == self@.owners,
    {
        clone_strings(&self.owners)
    }

    /// The line the rule was written on, counted from 1.
    pub fn line_number(&self) -> (line_number: usize)
        ensures
            line_number == self@.line_number,
    {
        self.line_number
    }

    /// The source text of the regular expression that the pattern stands for.
    pub fn regex_string(&self) -> (source: &str)
        ensures
            source@ == regex_source(self@.pattern),
    {
        proof {
            use_type_invariant(self);
        }
        self.regex.as_str()
    }
}

} // verus!
