//! The pattern compiler: from a glob-like pattern to the source text of the
//! regular expression that decides which paths it matches.
//!
//! A pattern is read left to right. Six pieces stand for something other
//! than themselves; where two of them begin at the same place the longer one
//! is taken, so that `/**/` is never read as `/**` followed by `/`. Every
//! other character is handed to the regular expression as it is.

use crate::engine::{compiled, finds_match, source_of};
use crate::text::{chars_of, same_text};
use regex::Regex;
use vstd::prelude::*;

verus! {

/// `/**/`: a separator, any run of characters other than a dot, a separator.
pub open spec fn any_dirs() -> Seq<char> {
    seq!['/', '*', '*', '/']
}

/// `/**`: a separator, then the rest of the path.
pub open spec fn rest() -> Seq<char> {
    seq!['/', '*', '*']
}

/// `*+`: anything, separators included.
pub open spec fn anything() -> Seq<char> {
    seq!['*', '+']
}

/// `*`: anything but a separator.
pub open spec fn segment() -> Seq<char> {
    seq!['*']
}

/// `/`: the separator itself.
pub open spec fn separator() -> Seq<char> {
    seq!['/']
}

/// `.`: a dot.
pub open spec fn dot() -> Seq<char> {
    seq!['.']
}

/// Whether `s` is one of the six pieces.
pub open spec fn is_piece(s: Seq<char>) -> bool {
    s == any_dirs() || s == rest() || s == anything() || s == segment() || s == separator() || s
        == dot()
}

/// What a piece becomes in the regular expression.
pub open spec fn piece_regex(piece: Seq<char>) -> Seq<char>
    recommends
        is_piece(piece),
{
    if piece == any_dirs() {
        seq!['/', '[', '^', '.', ']', '*', '/']
    } else if piece == rest() {
        seq!['/', '.', '*']
    } else if piece == anything() {
        seq!['.', '*']
    } else if piece == segment() {
        seq!['[', '^', '/', ']', '*']
    } else if piece == separator() {
        seq!['\\', '/']
    } else {
        seq!['\\', '.']
    }
}

/// Whether `s` holds the character `c` at position `i`.
pub open spec fn holds(s: Seq<char>, i: int, c: char) -> bool {
    0 <= i < s.len() && s[i] == c
}

/// The length of the piece that begins at position `i` of `s`, or 0 where
/// none does. The tests run from the longest piece to the shortest.
pub open spec fn piece_len(s: Seq<char>, i: int) -> int {
    if holds(s, i, '/') && holds(s, i + 1, '*') && holds(s, i + 2, '*') && holds(s, i + 3, '/') {
        4
    } else if holds(s, i, '/') && holds(s, i + 1, '*') && holds(s, i + 2, '*') {
        3
    } else if holds(s, i, '*') && holds(s, i + 1, '+') {
        2
    } else if holds(s, i, '*') || holds(s, i, '/') || holds(s, i, '.') {
        1
    } else {
        0
    }
}

/// `s[i..]` with each piece replaced and every other character kept.
pub open spec fn replaced_from(s: Seq<char>, i: int) -> Seq<char>
    decreases s.len() - i,
{
    if i < 0 || i >= s.len() {
        Seq::empty()
    } else if piece_len(s, i) == 0 {
        seq![s[i]] + replaced_from(s, i + 1)
    } else {
        piece_regex(s.subrange(i, i + piece_len(s, i))) + replaced_from(s, i + piece_len(s, i))
    }
}

/// The whole of `s` with each piece replaced.
pub open spec fn replaced(s: Seq<char>) -> Seq<char> {
    replaced_from(s, 0)
}

/// Whether a pattern is tied to the start of the path: it begins with `/`.
pub open spec fn anchored_at_start(pattern: Seq<char>) -> bool {
    holds(pattern, 0, '/')
}

/// Whether a pattern is tied to the end of the path: it ends with `/*` or
/// with `/**`, which allow no further segment after what they describe.
pub open spec fn anchored_at_end(pattern: Seq<char>) -> bool {
    seq!['/', '*'].is_suffix_of(pattern) || rest().is_suffix_of(pattern)
}

/// The anchor in front of a pattern: `\A` where it is tied to the start.
pub open spec fn start_anchor(pattern: Seq<char>) -> Seq<char> {
    if anchored_at_start(pattern) {
        seq!['\\', 'A']
    } else {
        Seq::empty()
    }
}

/// The anchor behind a pattern: `\z` where it is tied to the end.
pub open spec fn end_anchor(pattern: Seq<char>) -> Seq<char> {
    if anchored_at_end(pattern) {
        seq!['\\', 'z']
    } else {
        Seq::empty()
    }
}

/// The pattern with its anchors written out.
pub open spec fn anchored(pattern: Seq<char>) -> Seq<char> {
    start_anchor(pattern) + pattern + end_anchor(pattern)
}

/// The source text of the regular expression that a pattern stands for:
/// the anchors are placed first, the pieces replaced after.
pub open spec fn regex_source(pattern: Seq<char>) -> Seq<char> {
    replaced(anchored(pattern))
}

/// Whether the regular expression that a pattern stands for can be compiled.
pub open spec fn compiles(pattern: Seq<char>) -> bool {
    compiled(regex_source(pattern)) is Ok
}

/// Whether a pattern matches a path: its regular expression compiles and
/// finds a match in the path.
pub open spec fn pattern_matches(pattern: Seq<char>, path: Seq<char>) -> bool {
    match compiled(regex_source(pattern)) {
        Ok(re) => finds_match(re, path),
        Err(_) => false,
    }
}

/// Behind the start anchor, the anchored text reads as the pattern does and
/// ends with the end anchor.
proof fn lemma_replaced_behind_anchor(pattern: Seq<char>, i: int)
    requires
        0 <= i <= pattern.len(),
    ensures
        replaced_from(anchored(pattern), start_anchor(pattern).len() + i) == replaced_from(
            pattern,
            i,
        ) + end_anchor(pattern),
    decreases pattern.len() - i,
{
    let head = start_anchor(pattern);
    let tail = end_anchor(pattern);
    let text = anchored(pattern);
    let at: int = head.len() + i;
    if i == pattern.len() {
        if tail.len() > 0 {
            assert(replaced_from(text, at + 2) =~= Seq::<char>::empty());
            assert(replaced_from(text, at + 1) =~= seq!['z']);
        }
    } else {
        let len = piece_len(pattern, i);
        assert(piece_len(text, at) == len);
        if len == 0 {
            lemma_replaced_behind_anchor(pattern, i + 1);
        } else {
            assert(text.subrange(at, at + len) =~= pattern.subrange(i, i + len));
            lemma_replaced_behind_anchor(pattern, i + len);
        }
    }
}

/// The anchors pass through the replacement untouched: the source of a
/// pattern is its start anchor, the pattern with its pieces replaced, and
/// its end anchor.
pub proof fn lemma_anchors_stay(pattern: Seq<char>)
    ensures
        regex_source(pattern) == start_anchor(pattern) + replaced(pattern) + end_anchor(pattern),
{
    let head = start_anchor(pattern);
    let text = anchored(pattern);
    lemma_replaced_behind_anchor(pattern, 0);
    if head.len() > 0 {
        assert(replaced_from(text, 1) =~= seq!['A'] + replaced_from(text, 2));
    }
}

/// The table of the pieces, in the words of a rule file and of a regular
/// expression: what each piece looks like and what replaces it.
pub proof fn lemma_pieces()
    ensures
        "/**/"@ == any_dirs(),
        "/**"@ == rest(),
        "*+"@ == anything(),
        "*"@ == segment(),
        "/"@ == separator(),
        "."@ == dot(),
        "/[^.]*/"@ == piece_regex(any_dirs()),
        "/.*"@ == piece_regex(rest()),
        ".*"@ == piece_regex(anything()),
        "[^/]*"@ == piece_regex(segment()),
        "\\/"@ == piece_regex(separator()),
        "\\."@ == piece_regex(dot()),
{
    reveal_strlit("/**/");
    reveal_strlit("/**");
    reveal_strlit("*+");
    reveal_strlit("*");
    reveal_strlit("/");
    reveal_strlit(".");
    reveal_strlit("/[^.]*/");
    reveal_strlit("/.*");
    reveal_strlit(".*");
    reveal_strlit("[^/]*");
    reveal_strlit("\\/");
    reveal_strlit("\\.");
    assert(any_dirs().len() == 4 && rest().len() == 3 && anything().len() == 2);
    assert(segment()[0] == '*' && separator()[0] == '/' && dot()[0] == '.');
}

/// The regular expression text for one of the six pieces.
pub fn replace_piece(piece: &str) -> (regex: &'static str)
    requires
        is_piece(piece@),
    ensures
        regex@ == piece_regex(piece@),
{
    proof {
        lemma_pieces();
    }
    if same_text(piece, "/**/") {
        "/[^.]*/"
    } else if same_text(piece, "/**") {
        "/.*"
    } else if same_text(piece, "*+") {
        ".*"
    } else if same_text(piece, "*") {
        "[^/]*"
    } else if same_text(piece, "/") {
        "\\/"
    } else {
        "\\."
    }
}

/// Replaces the pieces of `text` from left to right and keeps the rest.
pub fn replace_pieces(text: &[char]) -> (out: String)
    ensures
        out@ == replaced(text@),
{
    let n: usize = text.len();
    let mut out = String::new();
    let mut i: usize = 0;
    while i < n
        invariant
            n == text@.len(),
            i <= n,
            replaced(text@) == out@ + replaced_from(text@, i as int),
        decreases n - i,
    {
        let c: char = text[i];
        proof {
            lemma_pieces();
        }
        if c == '/' && n - i >= 3 && text[i + 1] == '*' && text[i + 2] == '*' {
            if n - i >= 4 && text[i + 3] == '/' {
                assert(text@.subrange(i as int, i + 4) =~= "/**/"@);
                out.append(replace_piece("/**/"));
                i += 4;
            } else {
                assert(text@.subrange(i as int, i + 3) =~= "/**"@);
                out.append(replace_piece("/**"));
                i += 3;
            }
        } else if c == '*' && n - i >= 2 && text[i + 1] == '+' {
            assert(text@.subrange(i as int, i + 2) =~= "*+"@);
            out.append(replace_piece("*+"));
            i += 2;
        } else if c == '*' {
            assert(text@.subrange(i as int, i + 1) =~= "*"@);
            out.append(replace_piece("*"));
            i += 1;
        } else if c == '/' {
            assert(text@.subrange(i as int, i + 1) =~= "/"@);
            out.append(replace_piece("/"));
            i += 1;
        } else if c == '.' {
            assert(text@.subrange(i as int, i + 1) =~= "."@);
            out.append(replace_piece("."));
            i += 1;
        } else {
            out.push(c);
            i += 1;
        }
    }
    out
}

/// Writes the anchors of a pattern out, as `anchored` says.
pub fn write_anchors(pattern: &[char]) -> (text: Vec<char>)
    ensures
        text@ == anchored(pattern@),
{
    let n: usize = pattern.len();
    let mut text: Vec<char> = Vec::new();
    if n >= 1 && pattern[0] == '/' {
        text.push('\\');
        text.push('A');
    }
    let ghost head = text@;
    let mut i: usize = 0;
    while i < n
        invariant
            n == pattern@.len(),
            i <= n,
            text@ == head + pattern@.take(i as int),
        decreases n - i,
    {
        text.push(pattern[i]);
        i += 1;
    }
    let one_star: bool = n >= 2 && pattern[n - 2] == '/' && pattern[n - 1] == '*';
    let two_stars: bool = n >= 3 && pattern[n - 3] == '/' && pattern[n - 2] == '*' && pattern[n - 1]
        == '*';
    if one_star || two_stars {
        text.push('\\');
        text.push('z');
    }
    text
}

/// Compiles a pattern: its anchors are written out, its pieces replaced, and
/// the text that results is handed to the regular expression compiler.
///
/// The outcome is the compiler's: the expression on success, and its error
/// where the text is no regular expression or too large a one.
pub fn pattern_to_regex(pattern: &str) -> (result: Result<Regex, regex::Error>)
    ensures
        result == compiled(regex_source(pattern@)),
        result matches Ok(re) ==> source_of(re) == regex_source(pattern@),
{
    let chars = chars_of(pattern);
    let text = write_anchors(chars.as_slice());
    let source = replace_pieces(text.as_slice());
    Regex::new(source.as_str())
}

} // verus!
