//! The root of a repository: how it is trimmed, how it is taken off the
//! front of a path, and how it can be guessed from where the rule file lies.

use crate::text::{chars_of, ends_with, starts_with, string_of};
use vstd::prelude::*;

verus! {

/// A root without the separators at its end.
pub open spec fn trimmed(root: Seq<char>) -> Seq<char>
    decreases root.len(),
{
    if root.len() > 0 && root.last() == '/' {
        trimmed(root.drop_last())
    } else {
        root
    }
}

/// The path as the rules see it: the root is taken off its front where it
/// stands there, and a separator is put in front of what is left unless one
/// is there already.
pub open spec fn normalized(root: Seq<char>, path: Seq<char>) -> Seq<char> {
    let rest = if root.is_prefix_of(path) {
        path.skip(root.len() as int)
    } else {
        path
    };
    if rest.len() > 0 && rest.first() == '/' {
        rest
    } else {
        seq!['/'] + rest
    }
}

/// The rule file in the directory `.github` of the repository.
pub open spec fn github_place() -> Seq<char> {
    ".github/CODEOWNERS"@
}

/// The rule file in the directory `docs` of the repository.
pub open spec fn docs_place() -> Seq<char> {
    "docs/CODEOWNERS"@
}

/// The rule file directly under the root of the repository.
pub open spec fn top_place() -> Seq<char> {
    "CODEOWNERS"@
}

/// Whether a path leads to `place`: it is the place itself, or it ends with
/// a separator followed by the place.
pub open spec fn leads_to(path: Seq<char>, place: Seq<char>) -> bool {
    path == place || (seq!['/'] + place).is_suffix_of(path)
}

/// What stands in front of `place` in a path that leads to it, without the
/// separators at its end.
pub open spec fn root_before(path: Seq<char>, place: Seq<char>) -> Seq<char> {
    trimmed(path.take(path.len() - place.len()))
}

/// The root that the path of a rule file suggests. The usual places of a
/// rule file are tried in turn: `.github/CODEOWNERS`, `docs/CODEOWNERS`,
/// `CODEOWNERS`. The root is what stands in front of the first place that
/// the path leads to, and there is none where it leads to none of them.
pub open spec fn inferred_root(path: Seq<char>) -> Option<Seq<char>> {
    if leads_to(path, github_place()) {
        Some(root_before(path, github_place()))
    } else if leads_to(path, docs_place()) {
        Some(root_before(path, docs_place()))
    } else if leads_to(path, top_place()) {
        Some(root_before(path, top_place()))
    } else {
        None
    }
}

/// A trimmed root ends in no separator, and the root begins with it.
pub proof fn lemma_trimmed(root: Seq<char>)
    ensures
        trimmed(root).len() > 0 ==> trimmed(root).last() != '/',
        trimmed(root).is_prefix_of(root),
    decreases root.len(),
{
    if root.len() > 0 && root.last() == '/' {
        lemma_trimmed(root.drop_last());
    }
}

/// A normalized path begins with a separator.
pub proof fn lemma_normalized(root: Seq<char>, path: Seq<char>)
    ensures
        normalized(root, path).len() > 0,
        normalized(root, path).first() == '/',
{
}

/// A path under the root is normalized to what follows the root: where
/// `rest` begins with a separator, `root + rest` becomes `rest`.
pub proof fn lemma_root_is_taken_off(root: Seq<char>, rest: Seq<char>)
    requires
        rest.len() > 0,
        rest.first() == '/',
    ensures
        normalized(root, root + rest) == rest,
{
    let path = root + rest;
    assert(root =~= path.subrange(0, root.len() as int));
    assert(path.skip(root.len() as int) =~= rest);
}

/// The length of `chars[..end]` without the separators at its end.
fn trimmed_len(chars: &[char], end: usize) -> (len: usize)
    requires
        end <= chars@.len(),
    ensures
        len <= end,
        chars@.take(len as int) == trimmed(chars@.take(end as int)),
{
    let mut len: usize = end;
    while len > 0 && chars[len - 1] == '/'
        invariant
            len <= end <= chars@.len(),
            trimmed(chars@.take(end as int)) == trimmed(chars@.take(len as int)),
        decreases len,
    {
        proof {
            assert(chars@.take(len as int).drop_last() =~= chars@.take(len - 1));
        }
        len -= 1;
    }
    len
}

/// The root without the separators at its end.
pub fn trim_root(root: &str) -> (out: String)
    ensures
        out@ == trimmed(root@),
{
    let chars = chars_of(root);
    let len: usize = trimmed_len(chars.as_slice(), chars.len());
    proof {
        assert(root@.take(root@.len() as int) =~= root@);
    }
    string_of(chars.as_slice(), 0, len)
}

/// The path as the rules see it.
pub fn normalize_path(root: &str, path: &str) -> (out: String)
    ensures
        out@ == normalized(root@, path@),
        out@.len() > 0 && out@[0] == '/',
{
    let root_chars = chars_of(root);
    let path_chars = chars_of(path);
    let from: usize = if starts_with(path_chars.as_slice(), root_chars.as_slice()) {
        root_chars.len()
    } else {
        0
    };
    let rest = string_of(path_chars.as_slice(), from, path_chars.len());
    if from < path_chars.len() && path_chars[from] == '/' {
        rest
    } else {
        let mut out = String::new();
        out.push('/');
        out.append(rest.as_str());
        out
    }
}

/// Whether a path leads to `place`.
fn path_leads_to(path: &[char], place: &[char]) -> (b: bool)
    ensures
        b == leads_to(path@, place@),
{
    let n: usize = path.len();
    let m: usize = place.len();
    let b: bool = ends_with(path, place) && (n == m || path[n - m - 1] == '/');
    proof {
        let with_separator = seq!['/'] + place@;
        if b && n == m {
            assert(path@ =~= place@);
        }
        if with_separator.is_suffix_of(path@) {
            let tail = path@.subrange(n - m - 1, n as int);
            assert(tail[0] == '/');
            assert(place@ =~= with_separator.subrange(1, m + 1));
        }
    }
    b
}

/// Guesses the root of a repository from the path of its rule file.
///
/// This is a convenience for callers that were given no root. It knows the
/// usual places of a rule file and nothing else, so the guess is as good as
/// the convention is kept.
pub fn infer_root(source_path: &str) -> (root: Option<String>)
    ensures
        match root {
            Some(root) => inferred_root(source_path@) == Some(root@),
            None => inferred_root(source_path@) is None,
        },
{
    let path = chars_of(source_path);
    let github = chars_of(".github/CODEOWNERS");
    let docs = chars_of("docs/CODEOWNERS");
    let top = chars_of("CODEOWNERS");
    let place_len: usize = if path_leads_to(path.as_slice(), github.as_slice()) {
        github.len()
    } else if path_leads_to(path.as_slice(), docs.as_slice()) {
        docs.len()
    } else if path_leads_to(path.as_slice(), top.as_slice()) {
        top.len()
    } else {
        return None;
    };
    let len: usize = trimmed_len(path.as_slice(), path.len() - place_len);
    Some(string_of(path.as_slice(), 0, len))
}

} // verus!
