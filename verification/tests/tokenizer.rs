use htmldiff::html::split;

#[test]
fn test_split_html() {
    let actual = split("<p>Hello, world!</p>");
    let expected = vec!["<p>", "Hello", ",", " ", "world", "!", "</p>"];
    assert_eq!(actual, expected);
}

#[test]
fn split_of_empty_text_is_empty() {
    assert_eq!(split(""), Vec::<&str>::new());
}

#[test]
fn split_keeps_a_tag_whole_whatever_it_holds() {
    assert_eq!(
        split("<a href=\"x y\" id=z>link</a>"),
        vec!["<a href=\"x y\" id=z>", "link", "</a>"]
    );
}

#[test]
fn split_flushes_an_unclosed_tag_at_the_end() {
    assert_eq!(split("text <b unfinished"), vec!["text", " ", "<b unfinished"]);
    assert_eq!(split("<"), vec!["<"]);
}

#[test]
fn split_keeps_a_whitespace_run_together() {
    assert_eq!(split("a \t\r\n\x0c b"), vec!["a", " \t\r\n\x0c ", "b"]);
    assert_eq!(split("   "), vec!["   "]);
}

#[test]
fn split_cuts_each_punctuation_character_off() {
    assert_eq!(split("a,b"), vec!["a", ",", "b"]);
    assert_eq!(split("!!"), vec!["!", "!"]);
    assert_eq!(split("(hello)"), vec!["(", "hello", ")"]);
    assert_eq!(split("x > y"), vec!["x", " ", ">", " ", "y"]);
}

#[test]
fn split_counts_hash_and_at_as_word_characters() {
    assert_eq!(split("#tag @user a1B2"), vec!["#tag", " ", "@user", " ", "a1B2"]);
}

#[test]
fn split_moves_between_whitespace_tags_and_words() {
    assert_eq!(split(" <i> x"), vec![" ", "<i>", " ", "x"]);
    assert_eq!(split("<i><b>"), vec!["<i>", "<b>"]);
    assert_eq!(split(" ."), vec![" ", "."]);
    assert_eq!(split("a<b>c"), vec!["a", "<b>", "c"]);
}

#[test]
fn split_keeps_letters_and_digits_of_any_script_in_a_word() {
    assert_eq!(split("みかん"), vec!["みかん"]);
    assert_eq!(split("caf\u{e9} ok"), vec!["caf\u{e9}", " ", "ok"]);
    assert_eq!(split("\u{e9}t\u{e9}"), vec!["\u{e9}t\u{e9}"]);
    assert_eq!(split("x\u{663}y"), vec!["x\u{663}y"]);
    assert_eq!(split("<b>\u{416}\u{438}</b>"), vec!["<b>", "\u{416}\u{438}", "</b>"]);
}

#[test]
fn split_takes_any_other_character_outside_ascii_as_a_token_by_itself() {
    assert_eq!(split("a\u{1F600}b"), vec!["a", "\u{1F600}", "b"]);
    assert_eq!(split("\u{2014}\u{2014}"), vec!["\u{2014}", "\u{2014}"]);
    assert_eq!(split("<p title=\"\u{e9}\">\u{a0}"), vec!["<p title=\"\u{e9}\">", "\u{a0}"]);
    assert_eq!(split("\u{3053}\u{3001}\u{308c}"), vec!["\u{3053}", "\u{3001}", "\u{308c}"]);
}

#[test]
fn split_tokens_join_to_the_text_and_none_is_empty() {
    for text in [
        "",
        "<p>Hello, world!</p>",
        "  a  <b  c>  d!?  <",
        "みかん、 <img src=x> caf\u{e9}\u{2014}",
        ">>><<<",
    ] {
        let words = split(text);
        assert_eq!(words.concat(), text);
        assert!(words.iter().all(|w| !w.is_empty()));
    }
}

#[test]
fn split_tokens_borrow_from_the_text() {
    let text = String::from("ab cd");
    let words = split(&text);
    assert_eq!(words[2].as_ptr(), text[3..].as_ptr());
}
