//! The renderer: writes an edit script between two token sequences back as
//! markup, with what was added inside `<ins>` and what was deleted inside
//! `<del>`.
use vstd::prelude::*;
use crate::html::{lemma_tokens_len, split, texts, tokens};
use crate::policy::shortest_edit_script;
use crate::script::{in_range, is_shortest_edit_script};
use crate::words::{diff_words, same_text};
use crate::wu::Edit;

verus! {

/// A token that begins with `<`: a tag, or the beginning of one that the
/// text cuts short.
pub open spec fn is_tag_shaped(word: Seq<char>) -> bool {
    word.len() > 0 && word[0] == '<'
}

/// An image tag: a tag that is what the reader sees, not structure, so that
/// adding or deleting it is marked like text.
pub open spec fn is_always_wrapped(word: Seq<char>) -> bool {
    word.len() >= 4 && word[0] == '<' && word[1] == 'i' && word[2] == 'm' && word[3] == 'g'
}

/// What is written for an added or deleted token: a structural tag by
/// itself, anything else between the two markers.
pub open spec fn marked(word: Seq<char>, open: Seq<char>, close: Seq<char>) -> Seq<Seq<char>> {
    if is_tag_shaped(word) && !is_always_wrapped(word) {
        seq![word]
    } else {
        seq![open, word, close]
    }
}

/// What is written for one step of a script.
pub open spec fn rendered_edit(
    edit: Edit,
    old_words: Seq<Seq<char>>,
    new_words: Seq<Seq<char>>,
) -> Seq<Seq<char>> {
    match edit {
        Edit::Common { old, .. } => seq![old_words[old as int]],
        Edit::Add { new } => marked(new_words[new as int], "<ins>"@, "</ins>"@),
        Edit::Delete { old } => marked(old_words[old as int], "<del>"@, "</del>"@),
    }
}

/// What is written for a script, fragment by fragment.
pub open spec fn rendered(
    ses: Seq<Edit>,
    old_words: Seq<Seq<char>>,
    new_words: Seq<Seq<char>>,
) -> Seq<Seq<char>>
    decreases ses.len(),
{
    if ses.len() == 0 {
        Seq::empty()
    } else {
        rendered(ses.drop_last(), old_words, new_words) + rendered_edit(
            ses.last(),
            old_words,
            new_words,
        )
    }
}

/// The fragments of the diff of two documents: what is written for the edit
/// script that the aligner finds between their tokens.
pub open spec fn htmldiff(a: Seq<char>, b: Seq<char>) -> Seq<Seq<char>> {
    rendered(shortest_edit_script(tokens(a), tokens(b), same_text()), tokens(a), tokens(b))
}

/// Whether `s` begins with `<img`.
fn is_img_tag(s: &str) -> (r: bool)
    ensures
        r == is_always_wrapped(s@),
{
    let mut it = s.chars();
    match it.next() {
        Some('<') => match it.next() {
            Some('i') => match it.next() {
                Some('m') => match it.next() {
                    Some('g') => true,
                    _ => false,
                },
                _ => false,
            },
            _ => false,
        },
        _ => false,
    }
}

/// Whether `s` begins with `<`.
fn is_tag(s: &str) -> (r: bool)
    ensures
        r == is_tag_shaped(s@),
{
    let mut it = s.chars();
    match it.next() {
        Some(c) => c == '<',
        None => false,
    }
}

/// What is written for one step of a script: the token, and the two markers
/// that go round it unless it is written by itself.
fn step_fragments<'a>(edit: &Edit, old_words: &[&'a str], new_words: &[&'a str]) -> (r: (
    &'a str,
    Option<(&'a str, &'a str)>,
))
    requires
        match *edit {
            Edit::Add { new } => new < new_words@.len(),
            Edit::Delete { old } => old < old_words@.len(),
            Edit::Common { old, new } => old < old_words@.len() && new < new_words@.len(),
        },
    ensures
        rendered_edit(*edit, texts(old_words@), texts(new_words@)) == (match r.1 {
            Some((open, close)) => seq![open@, r.0@, close@],
            None => seq![r.0@],
        }),
{
    match edit {
        Edit::Common { old, new: _ } => (old_words[*old], None),
        Edit::Add { new } => {
            let word = new_words[*new];
            if is_tag(word) && !is_img_tag(word) {
                (word, None)
            } else {
                (word, Some(("<ins>", "</ins>")))
            }
        },
        Edit::Delete { old } => {
            let word = old_words[*old];
            if is_tag(word) && !is_img_tag(word) {
                (word, None)
            } else {
                (word, Some(("<del>", "</del>")))
            }
        },
    }
}

/// Writes a script out: a `Common` step as the old token, an `Add` step as
/// the new token and a `Delete` step as the old one, each of the two between
/// its markers unless the token is a structural tag.
pub fn render<'a>(old_words: &[&'a str], new_words: &[&'a str], ses: &[Edit]) -> (out: Vec<&'a str>)
    requires
        in_range(ses@, old_words@.len(), new_words@.len()),
    ensures
        texts(out@) == rendered(ses@, texts(old_words@), texts(new_words@)),
{
    let mut out: Vec<&'a str> = Vec::new();
    let mut i: usize = 0;
    let ghost olds = texts(old_words@);
    let ghost news = texts(new_words@);
    while i < ses.len()
        invariant
            i <= ses@.len(),
            in_range(ses@, old_words@.len(), new_words@.len()),
            olds == texts(old_words@),
            news == texts(new_words@),
            texts(out@) == rendered(ses@.take(i as int), olds, news),
        decreases ses@.len() - i,
    {
        proof {
            assert(ses@.take(i + 1).drop_last() =~= ses@.take(i as int));
        }
        let (word, marks) = step_fragments(&ses[i], old_words, new_words);
        match marks {
            Some((open, close)) => {
                out.push(open);
                out.push(word);
                out.push(close);
            },
            None => {
                out.push(word);
            },
        }
        i += 1;
    }
    proof {
        assert(ses@.take(ses@.len() as int) =~= ses@);
    }
    out
}

/// The tokens of two documents and the edit script between them.
fn align<'a>(a: &'a str, b: &'a str) -> (r: (Vec<&'a str>, Vec<&'a str>, Vec<Edit>))
    requires
        a@.len() + b@.len() + 3 <= usize::MAX,
    ensures
        texts(r.0@) == tokens(a@),
        texts(r.1@) == tokens(b@),
        r.2@ == shortest_edit_script(tokens(a@), tokens(b@), same_text()),
        is_shortest_edit_script(r.2@, tokens(a@), tokens(b@), same_text()),
        in_range(r.2@, r.0@.len(), r.1@.len()),
{
    proof {
        lemma_tokens_len(a@, 0);
        lemma_tokens_len(b@, 0);
    }
    let old_words = split(a);
    let new_words = split(b);
    let ses = diff_words(old_words.as_slice(), new_words.as_slice());
    (old_words, new_words, ses)
}

/// The fragments of the diff of two documents, in document order: the
/// rendering of a shortest edit script between their tokens.
///
/// The aligner's table has one entry for each token of both documents and
/// three more, which must fit in `usize`; a document has no more tokens than
/// characters.
pub fn htmldiff_fragments<'a>(a: &'a str, b: &'a str) -> (out: Vec<&'a str>)
    requires
        a@.len() + b@.len() + 3 <= usize::MAX,
    ensures
        texts(out@) == htmldiff(a@, b@),
        is_shortest_edit_script(
            shortest_edit_script(tokens(a@), tokens(b@), same_text()),
            tokens(a@),
            tokens(b@),
            same_text(),
        ),
{
    let (old_words, new_words, ses) = align(a, b);
    render(old_words.as_slice(), new_words.as_slice(), ses.as_slice())
}

/// Diffs two documents and hands the fragments of the result to `callback`,
/// one by one and in document order, each as soon as it is known.
///
/// What a call of `callback` does is its own; the contract says that it has
/// been called on a slice holding each fragment, by naming what `callback`
/// ensures of such a call.
pub fn build_htmldiff<'a, F>(a: &'a str, b: &'a str, mut callback: F) where F: FnMut(&'a str) -> ()
    requires
        a@.len() + b@.len() + 3 <= usize::MAX,
        forall|s: &'a str| call_requires(callback, (s,)),
    ensures
        forall|i: int|
            0 <= i < htmldiff(a@, b@).len() ==> exists|s: &'a str|
                s@ == #[trigger] htmldiff(a@, b@)[i] && call_ensures(callback, (s,), ()),
{
    let (old_words, new_words, ses) = align(a, b);
    let ghost sink = callback;
    let ghost olds = tokens(a@);
    let ghost news = tokens(b@);
    let ghost mut handed: Seq<&'a str> = Seq::empty();
    let mut i: usize = 0;
    while i < ses.len()
        invariant
            i <= ses@.len(),
            callback == sink,
            forall|s: &'a str| call_requires(callback, (s,)),
            in_range(ses@, old_words@.len(), new_words@.len()),
            olds == texts(old_words@),
            news == texts(new_words@),
            texts(handed) == rendered(ses@.take(i as int), olds, news),
            forall|j: int| 0 <= j < handed.len() ==> call_ensures(callback, (#[trigger] handed[j],), ()),
        decreases ses@.len() - i,
    {
        proof {
            assert(ses@.take(i + 1).drop_last() =~= ses@.take(i as int));
        }
        let (word, marks) = step_fragments(&ses[i], old_words.as_slice(), new_words.as_slice());
        match marks {
            Some((open, close)) => {
                callback(open);
                callback(word);
                callback(close);
                proof {
                    handed = handed.push(open).push(word).push(close);
                }
            },
            None => {
                callback(word);
                proof {
                    handed = handed.push(word);
                }
            },
        }
        i += 1;
    }
    proof {
        assert(ses@.take(ses@.len() as int) =~= ses@);
    }
}

} // verus!
