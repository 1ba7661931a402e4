//! Words compared by their text: the edit script between two sequences of
//! string slices.
use vstd::prelude::*;
use vstd::std_specs::cmp::PartialEqSpecImpl;
use vstd::string::StringSliceAdditionalSpecFns;
use vstd::utf8::encode_utf8_decode_utf8;
use crate::html::texts;
use crate::policy::{lemma_script_map, shortest_edit_script};
use crate::script::{
    all_common, eq_rel, in_range, is_edit_script, is_shortest_edit_script, mirrors,
};
use crate::shortest::{lemma_cost_symmetry, lemma_identity, lemma_shortest_edit_script};
use crate::wu::{diff, Edit};

verus! {

/// Two texts are the same when they hold the same characters.
pub open spec fn same_text() -> spec_fn(Seq<char>, Seq<char>) -> bool {
    |x: Seq<char>, y: Seq<char>| x == y
}

/// Whether two slices hold the same text.
fn text_eq(a: &str, b: &str) -> (r: bool)
    ensures
        r == (a@ == b@),
{
    let x = a.as_bytes();
    let y = b.as_bytes();
    proof {
        encode_utf8_decode_utf8(a@);
        encode_utf8_decode_utf8(b@);
    }
    if x.len() != y.len() {
        return false;
    }
    let mut i: usize = 0;
    while i < x.len()
        invariant
            x@.len() == y@.len(),
            i <= x@.len(),
            forall|j: int| 0 <= j < i ==> x@[j] == y@[j],
            x@ == a.spec_bytes(),
            y@ == b.spec_bytes(),
        decreases x@.len() - i,
    {
        if x[i] != y[i] {
            return false;
        }
        i += 1;
    }
    proof {
        assert(x@ =~= y@);
    }
    true
}

/// A token of a document: a slice of its text, compared by the characters
/// it holds.
pub struct Token<'a> {
    pub text: &'a str,
}

impl<'a> PartialEq for Token<'a> {
    fn eq(&self, other: &Self) -> (r: bool) {
        text_eq(self.text, other.text)
    }
}

impl<'a> Eq for Token<'a> {

}

impl<'a> PartialEqSpecImpl for Token<'a> {
    open spec fn obeys_eq_spec() -> bool {
        true
    }

    open spec fn eq_spec(&self, other: &Self) -> bool {
        self.text@ == other.text@
    }
}

/// The text of a token.
spec fn text_of<'a>() -> spec_fn(Token<'a>) -> Seq<char> {
    |t: Token<'a>| t.text@
}

/// The words as tokens, to be compared by their text.
fn as_tokens<'a>(words: &[&'a str]) -> (r: Vec<Token<'a>>)
    ensures
        r@.map_values(text_of()) == texts(words@),
{
    let mut r: Vec<Token<'a>> = Vec::new();
    let mut i: usize = 0;
    while i < words.len()
        invariant
            i <= words@.len(),
            r@.len() == i,
            forall|j: int| 0 <= j < i ==> r@[j].text@ == words@[j]@,
        decreases words@.len() - i,
    {
        r.push(Token { text: words[i] });
        i += 1;
    }
    r
}

/// The shortest edit script that turns the words `a` into the words `b`,
/// two words being the same when they hold the same characters.
///
/// This is [`diff`] for string slices: the script is the one that
/// [`shortest_edit_script`] singles out for the texts of the words, it pairs
/// only words with the same text, and no script that does so makes fewer
/// edits. The script from `b` to `a` costs the same, with adding and deleting
/// exchanged, and from a sequence to itself the script is one `Common` step
/// for each word.
///
/// The furthest-point table has `|a| + |b| + 3` entries, which must fit in
/// `usize`.
pub fn diff_words<'a>(a: &[&'a str], b: &[&'a str]) -> (ses: Vec<Edit>)
    requires
        a@.len() + b@.len() + 3 <= usize::MAX,
    ensures
        ses@ == shortest_edit_script(texts(a@), texts(b@), same_text()),
        is_shortest_edit_script(ses@, texts(a@), texts(b@), same_text()),
        is_edit_script(ses@, a@.len(), b@.len()),
        in_range(ses@, a@.len(), b@.len()),
        mirrors(ses@, shortest_edit_script(texts(b@), texts(a@), same_text())),
        texts(a@) == texts(b@) ==> ses@ == all_common(a@.len()),
{
    let old_tokens = as_tokens(a);
    let new_tokens = as_tokens(b);
    let ses = diff(old_tokens.as_slice(), new_tokens.as_slice());
    proof {
        let same = eq_rel::<Token<'a>>();
        assert forall|x: Token<'a>, y: Token<'a>| #[trigger]
            same(x, y) == (same_text())((text_of())(x), (text_of())(y)) by {}
        lemma_script_map(old_tokens@, new_tokens@, same, text_of(), same_text());
        lemma_shortest_edit_script(texts(a@), texts(b@), same_text());
        lemma_cost_symmetry(texts(a@), texts(b@), same_text());
        if texts(a@) == texts(b@) {
            lemma_identity(texts(a@), same_text());
        }
    }
    ses
}

} // verus!
