//! Strings as sequences of characters: fields, words and positions.

use vstd::prelude::*;

verus! {

/// `String::push` appends one character to the end of the string.
pub assume_specification[ String::push ](s: &mut String, ch: char)
    ensures
        final(s)@ == old(s)@.push(ch),
;

/// What `char::is_whitespace` answers for a character.
pub uninterp spec fn is_white_space(c: char) -> bool;

/// `char::is_whitespace` tells whether a character is white space as Unicode
/// defines it (`White_Space`). Which characters are is left to the standard
/// library.
pub assume_specification[ char::is_whitespace ](c: char) -> (b: bool)
    ensures
        b == is_white_space(c),
;

/// The test for white space, as a value.
pub open spec fn white_space() -> spec_fn(char) -> bool {
    |c: char| is_white_space(c)
}

/// The test for one given character, as a value.
pub open spec fn just(x: char) -> spec_fn(char) -> bool {
    |c: char| c == x
}

/// The fields of `s`: the runs of characters between its separators, in
/// order. A text with k separators has k + 1 fields, and a field is empty
/// where two separators meet or one stands at either end.
pub open spec fn split(s: Seq<char>, sep: spec_fn(char) -> bool) -> Seq<Seq<char>>
    decreases s.len(),
{
    if s.len() == 0 {
        seq![Seq::empty()]
    } else {
        let before = split(s.drop_last(), sep);
        if sep(s.last()) {
            before.push(Seq::empty())
        } else {
            before.drop_last().push(before.last().push(s.last()))
        }
    }
}

/// The test for a field that holds something, as a value.
pub open spec fn filled() -> spec_fn(Seq<char>) -> bool {
    |field: Seq<char>| field.len() > 0
}

/// The words of `s`: its fields between white space, the empty ones left out.
pub open spec fn words(s: Seq<char>) -> Seq<Seq<char>> {
    split(s, white_space()).filter(filled())
}

/// Whether `s` could be a word of `of`: it is not empty, holds no white
/// space, and every character of it stands in `of`.
pub open spec fn is_word_of(s: Seq<char>, of: Seq<char>) -> bool {
    &&& s.len() > 0
    &&& forall|j: int| 0 <= j < s.len() ==> !is_white_space(#[trigger] s[j]) && of.contains(s[j])
}

/// The position of the first `c` in `s` at or after `from`, or the length
/// of `s` where there is none.
pub open spec fn position(s: Seq<char>, from: int, c: char) -> int
    decreases s.len() - from,
{
    if from >= s.len() {
        s.len() as int
    } else if from >= 0 && s[from] == c {
        from
    } else {
        position(s, from + 1, c)
    }
}

/// A text has at least one field, and reading one more character either
/// opens a new field or lengthens the last one.
pub proof fn lemma_split_step(s: Seq<char>, sep: spec_fn(char) -> bool, i: int)
    requires
        0 <= i < s.len(),
    ensures
        split(s.take(i), sep).len() >= 1,
        sep(s[i]) ==> split(s.take(i + 1), sep) == split(s.take(i), sep).push(Seq::empty()),
        !sep(s[i]) ==> split(s.take(i + 1), sep) == split(s.take(i), sep).drop_last().push(
            split(s.take(i), sep).last().push(s[i]),
        ),
{
    assert(s.take(i + 1).drop_last() =~= s.take(i));
}

/// No field holds a separator, and every character of a field is one of
/// the text that was split.
pub proof fn lemma_split_fields(s: Seq<char>, sep: spec_fn(char) -> bool)
    ensures
        forall|k: int, j: int|
            0 <= k < split(s, sep).len() && 0 <= j < split(s, sep)[k].len() ==> !sep(
                #[trigger] split(s, sep)[k][j],
            ) && s.contains(split(s, sep)[k][j]),
    decreases s.len(),
{
    if s.len() > 0 {
        let front = s.drop_last();
        let before = split(front, sep);
        let fields = split(s, sep);
        lemma_split_fields(front, sep);
        assert forall|k: int, j: int|
            0 <= k < fields.len() && 0 <= j < fields[k].len() implies !sep(#[trigger] fields[k][j])
            && s.contains(fields[k][j]) by {
            let c = fields[k][j];
            if c == s.last() && !sep(s.last()) {
                assert(s[s.len() - 1] == c);
            } else {
                assert(k < before.len() && j < before[k].len() && before[k][j] == c);
                let at: int = choose|at: int| 0 <= at < front.len() && front[at] == c;
                assert(s[at] == c);
            }
        }
    }
}

/// What a filter keeps stood in the sequence, and passes the test.
pub proof fn lemma_filter_keeps<A>(s: Seq<A>, pred: spec_fn(A) -> bool, i: int)
    requires
        0 <= i < s.filter(pred).len(),
    ensures
        pred(s.filter(pred)[i]),
        s.contains(s.filter(pred)[i]),
    decreases s.len(),
{
    reveal(Seq::filter);
    if s.len() > 0 {
        let front = s.drop_last();
        let kept = front.filter(pred);
        if i < kept.len() {
            lemma_filter_keeps(front, pred, i);
            let at: int = choose|at: int| 0 <= at < front.len() && front[at] == kept[i];
            assert(s[at] == kept[i]);
        } else {
            assert(s[s.len() - 1] == s.filter(pred)[i]);
        }
    }
}

/// Every word of a text is a word of it: not empty, free of white space,
/// and made of characters of the text.
pub proof fn lemma_words(s: Seq<char>)
    ensures
        forall|i: int| 0 <= i < words(s).len() ==> is_word_of(#[trigger] words(s)[i], s),
{
    let fields = split(s, white_space());
    lemma_split_fields(s, white_space());
    assert forall|i: int| 0 <= i < words(s).len() implies is_word_of(#[trigger] words(s)[i], s) by {
        lemma_filter_keeps(fields, filled(), i);
        let word = words(s)[i];
        let k: int = choose|k: int| 0 <= k < fields.len() && fields[k] == word;
        assert forall|j: int| 0 <= j < word.len() implies !is_white_space(#[trigger] word[j])
            && s.contains(word[j]) by {
            assert(fields[k][j] == word[j]);
        }
    }
}

/// Between `from` and the position of the first `c` there is no `c`, and
/// at that position, unless it is the end, there is one.
pub proof fn lemma_position(s: Seq<char>, from: int, c: char)
    requires
        0 <= from <= s.len(),
    ensures
        from <= position(s, from, c) <= s.len(),
        forall|j: int| from <= j < position(s, from, c) ==> s[j] != c,
        position(s, from, c) < s.len() ==> s[position(s, from, c)] == c,
    decreases s.len() - from,
{
    if from < s.len() && s[from] != c {
        lemma_position(s, from + 1, c);
    }
}

/// The characters of `s`, in order.
pub fn chars_of(s: &str) -> (chars: Vec<char>)
    ensures
        chars@ == s@,
{
    let mut chars: Vec<char> = Vec::new();
    for c in it: s.chars()
        invariant
            it.seq() == s@,
            chars@ == s@.take(it.index() as int),
    {
        chars.push(c);
    }
    chars
}

/// The string made of `chars[from..to]`.
pub fn string_of(chars: &[char], from: usize, to: usize) -> (s: String)
    requires
        from <= to <= chars@.len(),
    ensures
        s@ == chars@.subrange(from as int, to as int),
{
    let mut s = String::new();
    let mut i: usize = from;
    while i < to
        invariant
            from <= i <= to <= chars@.len(),
            s@ == chars@.subrange(from as int, i as int),
        decreases to - i,
    {
        s.push(chars[i]);
        i += 1;
    }
    s
}

/// The position of the first `c` in `text` at or after `from`.
pub fn find(text: &[char], from: usize, c: char) -> (at: usize)
    requires
        from <= text@.len(),
    ensures
        at == position(text@, from as int, c),
        from <= at <= text@.len(),
{
    let mut i: usize = from;
    while i < text.len() && text[i] != c
        invariant
            from <= i <= text@.len(),
            position(text@, from as int, c) == position(text@, i as int, c),
        decreases text@.len() - i,
    {
        i += 1;
    }
    i
}

/// The words of `text`, each as a string of its own.
pub fn words_of(text: &[char]) -> (out: Vec<String>)
    ensures
        out.deep_view() == words(text@),
{
    let n: usize = text.len();
    let mut out: Vec<String> = Vec::new();
    let mut start: usize = 0;
    let mut i: usize = 0;
    while i < n
        invariant
            n == text@.len(),
            start <= i <= n,
            split(text@.take(i as int), white_space()).len() >= 1,
            split(text@.take(i as int), white_space()).last() == text@.subrange(
                start as int,
                i as int,
            ),
            out.deep_view() == split(text@.take(i as int), white_space()).drop_last().filter(
                filled(),
            ),
        decreases n - i,
    {
        let ghost fields = split(text@.take(i as int), white_space());
        proof {
            lemma_split_step(text@, white_space(), i as int);
        }
        if text[i].is_whitespace() {
            if start < i {
                let word = string_of(text, start, i);
                out.push(word);
            }
            proof {
                reveal(Seq::filter);
                assert(fields.push(Seq::empty()).drop_last() =~= fields);
            }
            start = i + 1;
        } else {
            proof {
                let grown = fields.drop_last().push(fields.last().push(text@[i as int]));
                assert(grown.drop_last() =~= fields.drop_last());
            }
        }
        i += 1;
    }
    proof {
        assert(text@.take(n as int) =~= text@);
        reveal(Seq::filter);
    }
    if start < n {
        let word = string_of(text, start, n);
        out.push(word);
    }
    out
}

/// Whether `text` begins with `prefix`.
pub fn starts_with(text: &[char], prefix: &[char]) -> (b: bool)
    ensures
        b == prefix@.is_prefix_of(text@),
{
    if prefix.len() > text.len() {
        return false;
    }
    let mut i: usize = 0;
    while i < prefix.len()
        invariant
            i <= prefix@.len() <= text@.len(),
            prefix@.take(i as int) == text@.take(i as int),
        decreases prefix@.len() - i,
    {
        if prefix[i] != text[i] {
            return false;
        }
        i += 1;
    }
    true
}

/// Whether `text` ends with `suffix`.
pub fn ends_with(text: &[char], suffix: &[char]) -> (b: bool)
    ensures
        b == suffix@.is_suffix_of(text@),
{
    if suffix.len() > text.len() {
        return false;
    }
    let shift: usize = text.len() - suffix.len();
    let mut i: usize = 0;
    while i < suffix.len()
        invariant
            shift + suffix@.len() == text@.len() <= usize::MAX,
            i <= suffix@.len(),
            suffix@.take(i as int) == text@.subrange(shift as int, shift + i),
        decreases suffix@.len() - i,
    {
        if suffix[i] != text[shift + i] {
            return false;
        }
        i += 1;
    }
    true
}

/// Whether two strings hold the same characters.
pub fn same_text(a: &str, b: &str) -> (same: bool)
    ensures
        same == (a@ == b@),
{
    let a_chars = chars_of(a);
    let b_chars = chars_of(b);
    if a_chars.len() != b_chars.len() {
        return false;
    }
    let mut i: usize = 0;
    while i < a_chars.len()
        invariant
            a_chars@ == a@,
            b_chars@ == b@,
            a_chars.len() == b_chars.len(),
            i <= a_chars.len(),
            a@.take(i as int) == b@.take(i as int),
        decreases a_chars.len() - i,
    {
        if a_chars[i] != b_chars[i] {
            return false;
        }
        i += 1;
    }
    proof {
        assert(a@ =~= a@.take(i as int));
        assert(b@ =~= b@.take(i as int));
    }
    true
}

} // verus!
