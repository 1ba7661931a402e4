//! The tokenizer: cuts markup into tags, whitespace runs, words and single
//! punctuation characters, each a borrowed slice of the input.
use vstd::prelude::*;
use vstd::string::*;
use vstd::utf8::*;

verus! {

/// Whitespace: space, tab, line feed, form feed, carriage return.
pub open spec fn is_space_char(c: char) -> bool {
    c == ' ' || c == '\t' || c == '\n' || c == '\x0C' || c == '\r'
}

/// Whether Unicode classes `c` as a letter or a number: the result of
/// `char::is_alphanumeric` on `c`. The classes are a table of the Unicode
/// standard, too long to write out here.
pub uninterp spec fn alphanumeric(c: char) -> bool;

/// The characters that words are made of: letters and digits, `#` and `@`.
/// Within ASCII the letters and digits are spelled out; beyond it they are
/// those that Unicode classes as alphanumeric.
pub open spec fn is_word_char(c: char) -> bool {
    ('a' <= c && c <= 'z') || ('A' <= c && c <= 'Z') || ('0' <= c && c <= '9') || c == '#' || c
        == '@' || (c > '\x7f' && alphanumeric(c))
}

/// Where a tag ends that is open at index `i`: just behind the first `>` at
/// or after `i`, or at the end of the text where there is none.
pub open spec fn tag_end(s: Seq<char>, i: int) -> int
    decreases s.len() - i,
{
    if i < 0 || i >= s.len() {
        s.len() as int
    } else if s[i] == '>' {
        i + 1
    } else {
        tag_end(s, i + 1)
    }
}

/// Where the run of whitespace ends that reaches index `i`: the first index
/// from `i` on that holds no whitespace.
pub open spec fn space_end(s: Seq<char>, i: int) -> int
    decreases s.len() - i,
{
    if i < 0 || i >= s.len() || !is_space_char(s[i]) {
        i
    } else {
        space_end(s, i + 1)
    }
}

/// Where the run of word characters ends that reaches index `i`.
pub open spec fn word_end(s: Seq<char>, i: int) -> int
    decreases s.len() - i,
{
    if i < 0 || i >= s.len() || !is_word_char(s[i]) {
        i
    } else {
        word_end(s, i + 1)
    }
}

/// Where the token ends that begins at index `i`. A `<` begins a tag, which
/// runs through its `>`; whitespace and word characters begin maximal runs of
/// their kind; any other character is a token by itself.
pub open spec fn token_end(s: Seq<char>, i: int) -> int {
    if s[i] == '<' {
        tag_end(s, i + 1)
    } else if is_space_char(s[i]) {
        space_end(s, i + 1)
    } else if is_word_char(s[i]) {
        word_end(s, i + 1)
    } else {
        i + 1
    }
}

/// A token is never empty and never runs past the end of the text.
pub proof fn lemma_token_end_bounds(s: Seq<char>, i: int)
    requires
        0 <= i < s.len(),
    ensures
        i < token_end(s, i) <= s.len(),
{
    lemma_run_bounds(s, i + 1);
}

/// Runs and tags that reach an index inside the text end between that index
/// and the end of the text.
pub proof fn lemma_run_bounds(s: Seq<char>, i: int)
    requires
        0 <= i <= s.len(),
    ensures
        i <= tag_end(s, i) <= s.len(),
        i <= space_end(s, i) <= s.len(),
        i <= word_end(s, i) <= s.len(),
    decreases s.len() - i,
{
    if i < s.len() {
        lemma_run_bounds(s, i + 1);
    }
}

/// The tokens of the text from index `i` on, in order.
pub open spec fn tokens_from(s: Seq<char>, i: int) -> Seq<Seq<char>>
    decreases s.len() - i,
{
    if 0 <= i < s.len() {
        proof {
            lemma_token_end_bounds(s, i);
        }
        seq![s.subrange(i, token_end(s, i))] + tokens_from(s, token_end(s, i))
    } else {
        Seq::empty()
    }
}

/// The tokens of a text, in document order.
pub open spec fn tokens(s: Seq<char>) -> Seq<Seq<char>> {
    tokens_from(s, 0)
}

/// The text of each token of a sequence.
pub open spec fn texts(words: Seq<&str>) -> Seq<Seq<char>> {
    words.map_values(|w: &str| w@)
}

/// The shapes that a token has: a tag, which begins with `<` and holds no
/// `>` before its last character; a run of whitespace; a run of word
/// characters; or one character that is none of these.
pub open spec fn is_token(t: Seq<char>) -> bool {
    &&& t.len() > 0
    &&& if t[0] == '<' {
        forall|i: int| 1 <= i < t.len() - 1 ==> t[i] != '>'
    } else if is_space_char(t[0]) {
        forall|i: int| 0 <= i < t.len() ==> is_space_char(t[i])
    } else if is_word_char(t[0]) {
        forall|i: int| 0 <= i < t.len() ==> is_word_char(t[i])
    } else {
        t.len() == 1
    }
}

/// What lies between an index and the end of the run or tag that reaches it.
pub proof fn lemma_run_contents(s: Seq<char>, i: int)
    requires
        0 <= i <= s.len(),
    ensures
        forall|j: int| i <= j < tag_end(s, i) - 1 ==> s[j] != '>',
        forall|j: int| i <= j < space_end(s, i) ==> is_space_char(s[j]),
        forall|j: int| i <= j < word_end(s, i) ==> is_word_char(s[j]),
    decreases s.len() - i,
{
    if i < s.len() {
        lemma_run_contents(s, i + 1);
    }
}

/// Every token has one of the shapes of a token; none is empty.
pub proof fn lemma_tokens_shaped(s: Seq<char>, i: int)
    requires
        0 <= i <= s.len(),
    ensures
        forall|j: int|
            0 <= j < tokens_from(s, i).len() ==> is_token(#[trigger] tokens_from(s, i)[j]),
    decreases s.len() - i,
{
    if i < s.len() {
        let end = token_end(s, i);
        lemma_run_contents(s, i + 1);
        lemma_run_bounds(s, i + 1);
        lemma_tokens_shaped(s, end);
        assert forall|j: int| 0 <= j < tokens_from(s, i).len() implies is_token(
            #[trigger] tokens_from(s, i)[j],
        ) by {
            if j > 0 {
                assert(tokens_from(s, i)[j] == tokens_from(s, end)[j - 1]);
            }
        }
    }
}

/// The tokens from index `i` on, joined, are the text from index `i` on:
/// the tokenizer drops nothing and adds nothing.
pub proof fn lemma_tokens_join(s: Seq<char>, i: int)
    requires
        0 <= i <= s.len(),
    ensures
        tokens_from(s, i).flatten() == s.subrange(i, s.len() as int),
        i == 0 ==> tokens(s).flatten() == s,
    decreases s.len() - i,
{
    if i < s.len() {
        let end = token_end(s, i);
        lemma_token_end_bounds(s, i);
        lemma_tokens_join(s, end);
        assert(tokens_from(s, i).drop_first() =~= tokens_from(s, end));
    }
}

/// A text has no more tokens than characters.
pub proof fn lemma_tokens_len(s: Seq<char>, i: int)
    requires
        0 <= i <= s.len(),
    ensures
        tokens_from(s, i).len() <= s.len() - i,
    decreases s.len() - i,
{
    if i < s.len() {
        lemma_token_end_bounds(s, i);
        lemma_tokens_len(s, token_end(s, i));
    }
}

/// Encoding a concatenation is concatenating the encodings.
pub proof fn lemma_encode_concat(a: Seq<char>, b: Seq<char>)
    ensures
        encode_utf8(a + b) == encode_utf8(a) + encode_utf8(b),
    decreases a.len(),
{
    if a.len() == 0 {
    } else {
        lemma_encode_concat(a.drop_first(), b);
        assert((a + b).drop_first() =~= a.drop_first() + b);
    }
}

/// The number of bytes that encode the first `i` characters of `cs`.
pub open spec fn byte_offset(cs: Seq<char>, i: int) -> int {
    encode_utf8(cs.take(i)).len() as int
}

/// Byte offsets grow with the character index, by the width of each character.
pub proof fn lemma_byte_offset_step(cs: Seq<char>, i: int)
    requires
        0 <= i < cs.len(),
    ensures
        byte_offset(cs, i + 1) == byte_offset(cs, i) + encode_scalar(cs[i] as u32).len(),
        1 <= encode_scalar(cs[i] as u32).len() <= 4,
{
    let one = seq![cs[i]];
    assert(cs.take(i + 1) =~= cs.take(i) + one);
    lemma_encode_concat(cs.take(i), one);
    assert(encode_utf8(one) =~= encode_scalar(cs[i] as u32)) by {
        reveal_with_fuel(encode_utf8, 2);
    }
}

/// Byte offsets are monotone in the character index and end at the encoded length.
pub proof fn lemma_byte_offset_monotone(cs: Seq<char>, i: int, j: int)
    requires
        0 <= i <= j <= cs.len(),
    ensures
        0 <= byte_offset(cs, i) <= byte_offset(cs, j) <= encode_utf8(cs).len(),
        i < j ==> byte_offset(cs, i) < byte_offset(cs, j),
        byte_offset(cs, 0) == 0,
        byte_offset(cs, cs.len() as int) == encode_utf8(cs).len(),
    decreases j - i,
{
    assert(cs.take(cs.len() as int) =~= cs);
    assert(cs =~= cs.take(j) + cs.skip(j));
    lemma_encode_concat(cs.take(j), cs.skip(j));
    if i < j {
        lemma_byte_offset_step(cs, j - 1);
        lemma_byte_offset_monotone(cs, i, j - 1);
    }
}

/// The encoding of a character prefix ends on a character boundary.
pub proof fn lemma_offset_is_boundary(cs: Seq<char>, i: int)
    requires
        0 <= i <= cs.len(),
    ensures
        is_char_boundary(encode_utf8(cs), byte_offset(cs, i)),
    decreases i,
{
    let bytes = encode_utf8(cs);
    encode_utf8_valid_utf8(cs);
    if i == 0 {
    } else {
        let rest = cs.drop_first();
        encode_utf8_first_scalar(cs);
        assert(pop_first_scalar(bytes) =~= encode_utf8(rest));
        lemma_offset_is_boundary(rest, i - 1);
        assert(cs.take(i).drop_first() =~= rest.take(i - 1));
    }
}

/// The characters of `s` from index `i` up to index `j`, as a slice of `s`.
/// `start` and `end` are the byte offsets of the two character indices.
fn slice<'a>(s: &'a str, start: usize, end: usize, Ghost(i): Ghost<int>, Ghost(j): Ghost<int>) -> (r:
    &'a str)
    requires
        0 <= i <= j <= s@.len(),
        start == byte_offset(s@, i),
        end == byte_offset(s@, j),
    ensures
        r@ == s@.subrange(i, j),
{
    proof {
        lemma_offset_is_boundary(s@, j);
    }
    let (head, _) = s.split_at(end);
    proof {
        let front = s@.take(j);
        assert(s@ =~= front + s@.skip(j));
        lemma_encode_concat(front, s@.skip(j));
        assert(head.spec_bytes() =~= encode_utf8(front));
        encode_utf8_decode_utf8(front);
        encode_utf8_decode_utf8(head@);
        lemma_offset_is_boundary(front, i);
        assert(front.take(i) =~= s@.take(i));
    }
    let (_, tail) = head.split_at(start);
    proof {
        let front = s@.take(j);
        let mid = s@.subrange(i, j);
        assert(front =~= front.take(i) + mid);
        lemma_encode_concat(front.take(i), mid);
        assert(tail.spec_bytes() =~= encode_utf8(mid));
        encode_utf8_decode_utf8(mid);
        encode_utf8_decode_utf8(tail@);
    }
    tail
}

/// What the scanner is in the middle of.
enum Mode {
    /// A word, or nothing yet.
    Char,
    /// A tag, up to its `>`.
    Tag,
    /// A run of whitespace.
    Whitespace,
}

/// The characters from `from` up to `to` are the beginning of one token of
/// the kind that `mode` names, and `to` is still inside it.
spec fn pending(mode: Mode, s: Seq<char>, from: int, to: int) -> bool {
    match mode {
        Mode::Char => from == to || (from < to && is_word_char(s[from]) && word_end(s, from + 1)
            == word_end(s, to)),
        Mode::Tag => from < to && s[from] == '<' && tag_end(s, from + 1) == tag_end(s, to),
        Mode::Whitespace => from < to && is_space_char(s[from]) && space_end(s, from + 1)
            == space_end(s, to),
    }
}

fn is_end_of_tag(c: char) -> (r: bool)
    ensures
        r == (c == '>'),
{
    c == '>'
}

fn is_start_of_tag(c: char) -> (r: bool)
    ensures
        r == (c == '<'),
{
    c == '<'
}

fn is_whitespace(c: char) -> (r: bool)
    ensures
        r == is_space_char(c),
{
    c == ' ' || c == '\t' || c == '\n' || c == '\x0C' || c == '\r'
}

/// `char::is_alphanumeric` of std. Verus does not look into it: that it
/// returns `alphanumeric(c)` is taken on trust, and says no more than that the
/// method's result depends on `c` alone.
#[verifier::external_body]
fn is_alphanumeric(c: char) -> (r: bool)
    ensures
        r == alphanumeric(c),
{
    c.is_alphanumeric()
}

fn is_word(c: char) -> (r: bool)
    ensures
        r == is_word_char(c),
{
    ('a' <= c && c <= 'z') || ('A' <= c && c <= 'Z') || ('0' <= c && c <= '9') || c == '#' || c
        == '@' || (c > '\x7f' && is_alphanumeric(c))
}

/// The number of bytes that encode `c`.
fn utf8_width(c: char) -> (w: usize)
    ensures
        w == encode_scalar(c as u32).len(),
{
    let v: u32 = c as u32;
    proof {
        char_is_scalar(c);
    }
    if v < 0x80 {
        1
    } else if v < 0x800 {
        2
    } else if v < 0x10000 {
        3
    } else {
        4
    }
}

/// Appends the token that begins at character `from` and ends before `to`.
fn push_token<'a>(
    words: &mut Vec<&'a str>,
    s: &'a str,
    start: usize,
    end: usize,
    Ghost(from): Ghost<int>,
    Ghost(to): Ghost<int>,
)
    requires
        0 <= from < s@.len(),
        to == token_end(s@, from),
        start == byte_offset(s@, from),
        end == byte_offset(s@, to),
        texts(old(words)@) + tokens_from(s@, from) == tokens(s@),
    ensures
        texts(final(words)@) + tokens_from(s@, to) == tokens(s@),
{
    proof {
        lemma_token_end_bounds(s@, from);
    }
    let word = slice(s, start, end, Ghost(from), Ghost(to));
    words.push(word);
}

/// Cuts `s` into its tokens: tags, whitespace runs, words and single other
/// characters, each a slice of `s`, in document order.
pub fn split<'a>(s: &'a str) -> (words: Vec<&'a str>)
    ensures
        texts(words@) == tokens(s@),
{
    let mut words: Vec<&'a str> = Vec::new();
    let mut start: usize = 0;
    let mut pos: usize = 0;
    let mut mode = Mode::Char;
    let ghost mut from: int = 0;
    let total = s.as_bytes().len();
    for c in it: s.chars()
        invariant
            it.seq() == s@,
            total == encode_utf8(s@).len(),
            0 <= from <= it.index() <= s@.len(),
            start == byte_offset(s@, from),
            pos == byte_offset(s@, it.index() as int),
            pending(mode, s@, from, it.index() as int),
            texts(words@) + tokens_from(s@, from) == tokens(s@),
    {
        let ghost at = it.index() as int;
        proof {
            lemma_byte_offset_step(s@, at);
            lemma_byte_offset_monotone(s@, at + 1, s@.len() as int);
            lemma_byte_offset_monotone(s@, from, at);
        }
        let next = pos + utf8_width(c);
        match mode {
            Mode::Char => {
                if is_start_of_tag(c) {
                    if start != pos {
                        push_token(&mut words, s, start, pos, Ghost(from), Ghost(at));
                    }
                    start = pos;
                    mode = Mode::Tag;
                    proof {
                        from = at;
                    }
                } else if is_whitespace(c) {
                    if start != pos {
                        push_token(&mut words, s, start, pos, Ghost(from), Ghost(at));
                    }
                    start = pos;
                    mode = Mode::Whitespace;
                    proof {
                        from = at;
                    }
                } else if is_word(c) {
                } else {
                    if start != pos {
                        push_token(&mut words, s, start, pos, Ghost(from), Ghost(at));
                    }
                    push_token(&mut words, s, pos, next, Ghost(at), Ghost(at + 1));
                    start = next;
                    proof {
                        from = at + 1;
                    }
                }
            },
            Mode::Tag => {
                if is_end_of_tag(c) {
                    push_token(&mut words, s, start, next, Ghost(from), Ghost(at + 1));
                    start = next;
                    mode = Mode::Char;
                    proof {
                        from = at + 1;
                    }
                }
            },
            Mode::Whitespace => {
                if is_start_of_tag(c) {
                    push_token(&mut words, s, start, pos, Ghost(from), Ghost(at));
                    start = pos;
                    mode = Mode::Tag;
                    proof {
                        from = at;
                    }
                } else if is_whitespace(c) {
                } else {
                    push_token(&mut words, s, start, pos, Ghost(from), Ghost(at));
                    mode = Mode::Char;
                    if is_word(c) {
                        start = pos;
                        proof {
                            from = at;
                        }
                    } else {
                        push_token(&mut words, s, pos, next, Ghost(at), Ghost(at + 1));
                        start = next;
                        proof {
                            from = at + 1;
                        }
                    }
                }
            },
        }
        pos = next;
    }
    proof {
        lemma_byte_offset_monotone(s@, from, s@.len() as int);
    }
    if start < pos {
        push_token(&mut words, s, start, pos, Ghost(from), Ghost(s@.len() as int));
    }
    words
}

} // verus!
