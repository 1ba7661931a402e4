use htmldiff::builder::{build_htmldiff, htmldiff_fragments, render};
use htmldiff::words::Token;
use htmldiff::wu::Edit;

fn htmldiff(a: &str, b: &str) -> String {
    let mut out = String::new();
    build_htmldiff(a, b, |s: &str| out.push_str(s));
    out
}

#[test]
fn render_example_wraps_changed_text_and_leaves_tags_alone() {
    let out = htmldiff("<p>foo</p>", "<p>bar</p>");
    assert_eq!(out, "<p><del>foo</del><ins>bar</ins></p>");
    assert_eq!(out.matches("<p>").count(), 1);
    assert_eq!(out.matches("</p>").count(), 1);
}

#[test]
fn render_example_fragments() {
    assert_eq!(
        htmldiff_fragments("<p>foo</p>", "<p>bar</p>"),
        vec!["<p>", "<del>", "foo", "</del>", "<ins>", "bar", "</ins>", "</p>"]
    );
}

#[test]
fn added_image_tag_is_wrapped() {
    assert_eq!(
        htmldiff("<p>a</p>", "<p>a<img src=\"x.png\"></p>"),
        "<p>a<ins><img src=\"x.png\"></ins></p>"
    );
}

#[test]
fn deleted_image_tag_is_wrapped() {
    assert_eq!(
        htmldiff("<p>a<img src=\"x.png\"></p>", "<p>a</p>"),
        "<p>a<del><img src=\"x.png\"></del></p>"
    );
}

#[test]
fn added_structural_tag_is_not_wrapped() {
    assert_eq!(htmldiff("a", "<b>a</b>"), "<b>a</b>");
    assert_eq!(htmldiff("<b>a</b>", "a"), "<b>a</b>");
}

#[test]
fn unchanged_documents_come_back_as_they_are() {
    let text = "<div class=\"x\">Hello, <i>world</i>!</div>";
    assert_eq!(htmldiff(text, text), text);
}

#[test]
fn empty_documents() {
    assert_eq!(htmldiff("", ""), "");
    assert_eq!(htmldiff("", "a b"), "<ins>a</ins><ins> </ins><ins>b</ins>");
    assert_eq!(htmldiff("a b", ""), "<del>a</del><del> </del><del>b</del>");
}

#[test]
fn callback_gets_one_fragment_at_a_time_in_order() {
    let mut seen: Vec<String> = vec![];
    build_htmldiff("<p>foo</p>", "<p>foo bar</p>", |s: &str| seen.push(s.to_string()));
    assert_eq!(
        seen,
        vec!["<p>", "foo", "<ins>", " ", "</ins>", "<ins>", "bar", "</ins>", "</p>"]
    );
}

#[test]
fn render_writes_each_kind_of_step() {
    let old_words = vec!["<p>", "old", "<img a>", "</p>"];
    let new_words = vec!["<p>", "new", "<br>", "<img b>", "</p>"];
    let ses = vec![
        Edit::Common { old: 0, new: 0 },
        Edit::Delete { old: 1 },
        Edit::Delete { old: 2 },
        Edit::Add { new: 1 },
        Edit::Add { new: 2 },
        Edit::Add { new: 3 },
        Edit::Common { old: 3, new: 4 },
    ];
    assert_eq!(
        render(&old_words, &new_words, &ses),
        vec![
            "<p>", "<del>", "old", "</del>", "<del>", "<img a>", "</del>", "<ins>", "new",
            "</ins>", "<br>", "<ins>", "<img b>", "</ins>", "</p>",
        ]
    );
}

#[test]
fn render_takes_a_common_step_from_the_old_side() {
    let old_words = vec!["left"];
    let new_words = vec!["right"];
    assert_eq!(
        render(&old_words, &new_words, &[Edit::Common { old: 0, new: 0 }]),
        vec!["left"]
    );
}

#[test]
fn render_of_an_empty_script_is_empty() {
    let none: Vec<&str> = vec![];
    assert_eq!(render(&none, &none, &[]), Vec::<&str>::new());
}

#[test]
fn tag_shape_goes_by_the_first_characters_only() {
    // "<im" is a tag but no image tag; "<imgx" counts as one.
    let old_words: Vec<&str> = vec![];
    let new_words = vec!["<im>", "<imgx>", "<", "img"];
    let ses = vec![
        Edit::Add { new: 0 },
        Edit::Add { new: 1 },
        Edit::Add { new: 2 },
        Edit::Add { new: 3 },
    ];
    assert_eq!(
        render(&old_words, &new_words, &ses),
        vec!["<im>", "<ins>", "<imgx>", "</ins>", "<", "<ins>", "img", "</ins>"]
    );
}

#[test]
fn tokens_with_the_same_text_are_common_wherever_they_come_from() {
    let a = String::from("x y");
    let b = String::from("x y z");
    assert_eq!(htmldiff(&a, &b), "x y<ins> </ins><ins>z</ins>");
}

#[test]
fn tokens_are_compared_by_their_text() {
    let a = String::from("same");
    let b = String::from("same");
    assert!(Token { text: &a } == Token { text: &b });
    assert!(Token { text: "same" } != Token { text: "Same" });
    assert!(Token { text: "same" } != Token { text: "sam" });
    assert!(Token { text: "" } == Token { text: "" });
    assert!(Token { text: "\u{e9}" } != Token { text: "e" });
}
