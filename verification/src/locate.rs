//! Finding the manifests below a directory: the pattern that the search
//! runs with, and what is kept of its outcome.

use vstd::prelude::*;
use vstd::string::StringExecFns;

verus! {

/// The characters that a search pattern reads as more than themselves.
pub open spec fn is_pattern_char(c: char) -> bool {
    c == '?' || c == '*' || c == '[' || c == ']'
}

/// The text as a pattern that stands for the text itself: each pattern
/// character is put in brackets, every other character is copied.
pub open spec fn escaped(text: Seq<char>) -> Seq<char>
    decreases text.len(),
{
    if text.len() == 0 {
        text
    } else if is_pattern_char(text.last()) {
        escaped(text.drop_last()) + seq!['[', text.last(), ']']
    } else {
        escaped(text.drop_last()).push(text.last())
    }
}

/// The pattern that matches the manifests below `root`, at any depth. The
/// root is taken literally, whatever characters it holds.
pub open spec fn manifest_pattern_of(root: Seq<char>) -> Seq<char> {
    escaped(root) + "/**/Cargo.toml"@
}

/// The outcomes that gave the path of a regular file, in the order of the
/// search. An outcome holds a path together with whether a regular file
/// lies there.
pub open spec fn paths_found<P, E>(outcomes: Seq<Result<(P, bool), E>>) -> Seq<P>
    decreases outcomes.len(),
{
    if outcomes.len() == 0 {
        Seq::empty()
    } else {
        match outcomes.last() {
            Ok((path, true)) => paths_found(outcomes.drop_last()).push(path),
            _ => paths_found(outcomes.drop_last()),
        }
    }
}

/// The outcomes that gave an error, in the order of the search.
pub open spec fn errors_met<P, E>(outcomes: Seq<Result<(P, bool), E>>) -> Seq<E>
    decreases outcomes.len(),
{
    if outcomes.len() == 0 {
        Seq::empty()
    } else {
        match outcomes.last() {
            Ok(_) => errors_met(outcomes.drop_last()),
            Err(error) => errors_met(outcomes.drop_last()).push(error),
        }
    }
}

/// A text without pattern characters is its own pattern.
pub proof fn lemma_escaped_plain(text: Seq<char>)
    requires
        forall|i: int| 0 <= i < text.len() ==> !is_pattern_char(#[trigger] text[i]),
    ensures
        escaped(text) == text,
    decreases text.len(),
{
    if text.len() > 0 {
        lemma_escaped_plain(text.drop_last());
        assert(text.drop_last().push(text.last()) =~= text);
    }
}

/// Escaping goes character by character: the pattern of two texts joined
/// is their patterns joined.
pub proof fn lemma_escaped_concat(a: Seq<char>, b: Seq<char>)
    ensures
        escaped(a + b) == escaped(a) + escaped(b),
    decreases b.len(),
{
    if b.len() == 0 {
        assert(a + b =~= a);
        assert(escaped(a) + escaped(b) =~= escaped(a));
    } else {
        lemma_escaped_concat(a, b.drop_last());
        assert((a + b).drop_last() =~= a + b.drop_last());
        assert((a + b).last() == b.last());
        if is_pattern_char(b.last()) {
            assert(escaped(a + b) =~= escaped(a) + escaped(b));
        } else {
            assert(escaped(a + b) =~= escaped(a) + escaped(b));
        }
    }
}

/// Only paths of regular files are kept, and every error is.
pub proof fn lemma_kept_outcomes<P, E>(outcomes: Seq<Result<(P, bool), E>>)
    ensures
        paths_found(outcomes).len() + errors_met(outcomes).len() <= outcomes.len(),
        forall|path: P|
            paths_found(outcomes).contains(path) ==> outcomes.contains(
                Ok::<(P, bool), E>((path, true)),
            ),
    decreases outcomes.len(),
{
    if outcomes.len() > 0 {
        let front = outcomes.drop_last();
        lemma_kept_outcomes(front);
        assert forall|path: P| paths_found(outcomes).contains(path) implies outcomes.contains(
            Ok::<(P, bool), E>((path, true)),
        ) by {
            if paths_found(front).contains(path) {
                let i = choose|i: int|
                    0 <= i < front.len() && front[i] == Ok::<(P, bool), E>((path, true));
                assert(outcomes[i] == front[i]);
            } else {
                assert(outcomes[outcomes.len() - 1] == Ok::<(P, bool), E>((path, true)));
            }
        }
    }
}

/// `glob::Pattern::escape`: each of `?`, `*`, `[` and `]` is put in
/// brackets, every other character is copied.
#[verifier::external_body]
fn escape(text: &str) -> (literal: String)
    ensures
        literal@ == escaped(text@),
{
    glob::Pattern::escape(text)
}

/// The pattern to search with for the manifests below `root`.
pub fn manifest_pattern(root: &str) -> (pattern: String)
    ensures
        pattern@ == manifest_pattern_of(root@),
{
    let mut pattern = escape(root);
    pattern.append("/**/Cargo.toml");
    pattern
}

/// Parts the outcomes of a search: the paths at which a regular file lies,
/// and the errors of the places that could not be read. A path that is no
/// regular file is left out; an error does not end the search. Both keep
/// the order of the search.
pub fn split_outcomes<P, E>(outcomes: Vec<Result<(P, bool), E>>) -> (parted: (Vec<P>, Vec<E>))
    ensures
        parted.0@ == paths_found(outcomes@),
        parted.1@ == errors_met(outcomes@),
{
    let mut paths: Vec<P> = Vec::new();
    let mut errors: Vec<E> = Vec::new();
    let ghost all = outcomes@;
    for outcome in it: outcomes
        invariant
            it.seq() == all,
            paths@ == paths_found(all.take(it.index() as int)),
            errors@ == errors_met(all.take(it.index() as int)),
    {
        assert(all.take(it.index() + 1).drop_last() =~= all.take(it.index() as int));
        match outcome {
            Ok((path, is_file)) => {
                if is_file {
                    paths.push(path);
                }
            },
            Err(error) => errors.push(error),
        }
    }
    assert(all.take(all.len() as int) =~= all);
    (paths, errors)
}

} // verus!
