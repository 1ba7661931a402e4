use htmldiff::words::diff_words;
use htmldiff::wu::{diff, Edit};

/// The length of a longest common subsequence, by the textbook table.
fn lcs<T: Eq>(a: &[T], b: &[T]) -> usize {
    let mut table = vec![vec![0usize; b.len() + 1]; a.len() + 1];
    for i in 1..=a.len() {
        for j in 1..=b.len() {
            table[i][j] = if a[i - 1] == b[j - 1] {
                table[i - 1][j - 1] + 1
            } else {
                table[i - 1][j].max(table[i][j - 1])
            };
        }
    }
    table[a.len()][b.len()]
}

fn edits(ses: &[Edit]) -> usize {
    ses.iter().filter(|e| !matches!(e, Edit::Common { .. })).count()
}

fn adds(ses: &[Edit]) -> usize {
    ses.iter().filter(|e| matches!(e, Edit::Add { .. })).count()
}

fn deletes(ses: &[Edit]) -> usize {
    ses.iter().filter(|e| matches!(e, Edit::Delete { .. })).count()
}

/// Replays a script: the elements at its old positions and at its new ones.
fn replay<T: Clone + Eq + std::fmt::Debug>(ses: &[Edit], a: &[T], b: &[T]) -> (Vec<T>, Vec<T>) {
    let mut old_side = vec![];
    let mut new_side = vec![];
    for e in ses {
        match e {
            Edit::Add { new } => new_side.push(b[*new].clone()),
            Edit::Delete { old } => old_side.push(a[*old].clone()),
            Edit::Common { old, new } => {
                assert_eq!(a[*old], b[*new]);
                old_side.push(a[*old].clone());
                new_side.push(b[*new].clone());
            }
        }
    }
    (old_side, new_side)
}

fn chars(s: &str) -> Vec<char> {
    s.chars().collect()
}

const SAMPLES: [(&str, &str); 12] = [
    ("", ""),
    ("", "abc"),
    ("abc", ""),
    ("abc", "abc"),
    ("abc", "xyz"),
    ("abcabba", "cbabac"),
    ("cbabac", "abcabba"),
    ("kitten", "sitting"),
    ("aaaa", "aa"),
    ("ab", "ba"),
    ("xaxbxcx", "abc"),
    ("the quick brown fox", "the quack brown box"),
];

#[test]
fn test_diff() {
    let actual = diff(
        &vec!["み", "ん", "か", "ん", "じ", "ん"],
        &vec!["み", "か", "ん", "せ", "い", "じ", "ん"],
    );
    let expected = vec![
        Edit::Common { old: 0, new: 0 },
        Edit::Delete { old: 1 },
        Edit::Common { old: 2, new: 1 },
        Edit::Common { old: 3, new: 2 },
        Edit::Add { new: 3 },
        Edit::Add { new: 4 },
        Edit::Common { old: 4, new: 5 },
        Edit::Common { old: 5, new: 6 },
    ];
    assert_eq!(actual, expected);
}

#[test]
fn diff_of_two_empty_sequences_is_empty() {
    let none: Vec<u8> = vec![];
    assert_eq!(diff(&none, &none), vec![]);
}

#[test]
fn diff_from_empty_adds_everything() {
    let none: Vec<char> = vec![];
    assert_eq!(
        diff(&none, &chars("abc")),
        vec![Edit::Add { new: 0 }, Edit::Add { new: 1 }, Edit::Add { new: 2 }]
    );
}

#[test]
fn diff_to_empty_deletes_everything() {
    let none: Vec<char> = vec![];
    assert_eq!(
        diff(&chars("abc"), &none),
        vec![Edit::Delete { old: 0 }, Edit::Delete { old: 1 }, Edit::Delete { old: 2 }]
    );
}

#[test]
fn diff_with_longer_old_sequence_names_the_callers_positions() {
    // The old sequence is the longer one, so the aligner works on the two in
    // exchanged places and has to exchange them back in what it writes.
    assert_eq!(
        diff(&chars("abcd"), &chars("bd")),
        vec![
            Edit::Delete { old: 0 },
            Edit::Common { old: 1, new: 0 },
            Edit::Delete { old: 2 },
            Edit::Common { old: 3, new: 1 },
        ]
    );
}

#[test]
fn diff_replaces_one_element() {
    assert_eq!(
        diff(&chars("abc"), &chars("axc")),
        vec![
            Edit::Common { old: 0, new: 0 },
            Edit::Delete { old: 1 },
            Edit::Add { new: 1 },
            Edit::Common { old: 2, new: 2 },
        ]
    );
}

#[test]
fn diff_round_trips_both_sequences() {
    for (a, b) in SAMPLES {
        let (a, b) = (chars(a), chars(b));
        let ses = diff(&a, &b);
        let (old_side, new_side) = replay(&ses, &a, &b);
        assert_eq!(old_side, a);
        assert_eq!(new_side, b);
    }
}

#[test]
fn diff_visits_positions_in_order() {
    for (a, b) in SAMPLES {
        let (a, b) = (chars(a), chars(b));
        let ses = diff(&a, &b);
        let mut next_old = 0;
        let mut next_new = 0;
        for e in &ses {
            match e {
                Edit::Add { new } => {
                    assert_eq!(*new, next_new);
                    next_new += 1;
                }
                Edit::Delete { old } => {
                    assert_eq!(*old, next_old);
                    next_old += 1;
                }
                Edit::Common { old, new } => {
                    assert_eq!((*old, *new), (next_old, next_new));
                    next_old += 1;
                    next_new += 1;
                }
            }
        }
        assert_eq!((next_old, next_new), (a.len(), b.len()));
    }
}

#[test]
fn diff_makes_as_few_edits_as_the_longest_common_subsequence_allows() {
    for (a, b) in SAMPLES {
        let (a, b) = (chars(a), chars(b));
        let ses = diff(&a, &b);
        assert_eq!(edits(&ses), a.len() + b.len() - 2 * lcs(&a, &b));
    }
}

#[test]
fn diff_edit_count_exact_values() {
    assert_eq!(edits(&diff(&chars("abcabba"), &chars("cbabac"))), 5);
    assert_eq!(edits(&diff(&chars("kitten"), &chars("sitting"))), 5);
    assert_eq!(edits(&diff(&chars("abc"), &chars("xyz"))), 6);
}

#[test]
fn diff_of_a_sequence_with_itself_is_all_common() {
    for (a, _) in SAMPLES {
        let a = chars(a);
        let ses = diff(&a, &a);
        let expected: Vec<Edit> = (0..a.len()).map(|i| Edit::Common { old: i, new: i }).collect();
        assert_eq!(ses, expected);
    }
}

#[test]
fn diff_costs_the_same_in_both_directions() {
    for (a, b) in SAMPLES {
        let (a, b) = (chars(a), chars(b));
        let forth = diff(&a, &b);
        let back = diff(&b, &a);
        assert_eq!(edits(&forth), edits(&back));
        assert_eq!(adds(&forth), deletes(&back));
        assert_eq!(deletes(&forth), adds(&back));
    }
}

#[test]
fn diff_prefers_the_delete_before_the_add() {
    // Both orders are shortest; the aligner settles on this one.
    assert_eq!(
        diff(&chars("a"), &chars("b")),
        vec![Edit::Delete { old: 0 }, Edit::Add { new: 0 }]
    );
}

#[test]
fn diff_works_on_integers() {
    let a = vec![1u32, 2, 3, 4, 5];
    let b = vec![1u32, 3, 4, 6];
    let ses = diff(&a, &b);
    assert_eq!(
        ses,
        vec![
            Edit::Common { old: 0, new: 0 },
            Edit::Delete { old: 1 },
            Edit::Common { old: 2, new: 1 },
            Edit::Common { old: 3, new: 2 },
            Edit::Add { new: 3 },
            Edit::Delete { old: 4 },
        ]
    );
}

#[test]
fn edit_orders_and_clones_as_derived() {
    let e = Edit::Common { old: 1, new: 2 };
    assert_eq!(e.clone(), e);
    assert!(Edit::Add { new: 9 } < Edit::Delete { old: 0 });
    assert!(Edit::Delete { old: 9 } < Edit::Common { old: 0, new: 0 });
    assert_eq!(format!("{:?}", Edit::Add { new: 3 }), "Add { new: 3 }");
}

/// Sequences over a small alphabet from a fixed linear congruential
/// generator, so that the two share subsequences.
fn sample(seed: &mut u64, len: usize) -> Vec<u8> {
    let mut out = Vec::with_capacity(len);
    for _ in 0..len {
        *seed = seed.wrapping_mul(6364136223846793005).wrapping_add(1442695040888963407);
        out.push(((*seed >> 33) % 3) as u8);
    }
    out
}

#[test]
fn diff_is_shortest_on_many_sequences() {
    let mut seed = 7u64;
    for round in 0..300 {
        let a = sample(&mut seed, round % 13);
        let b = sample(&mut seed, (round * 7) % 17);
        let ses = diff(&a, &b);
        let (old_side, new_side) = replay(&ses, &a, &b);
        assert_eq!(old_side, a);
        assert_eq!(new_side, b);
        assert_eq!(edits(&ses), a.len() + b.len() - 2 * lcs(&a, &b));
    }
}

#[test]
fn diff_words_aligns_string_slices() {
    let actual = diff_words(
        &["み", "ん", "か", "ん", "じ", "ん"],
        &["み", "か", "ん", "せ", "い", "じ", "ん"],
    );
    let expected = vec![
        Edit::Common { old: 0, new: 0 },
        Edit::Delete { old: 1 },
        Edit::Common { old: 2, new: 1 },
        Edit::Common { old: 3, new: 2 },
        Edit::Add { new: 3 },
        Edit::Add { new: 4 },
        Edit::Common { old: 4, new: 5 },
        Edit::Common { old: 5, new: 6 },
    ];
    assert_eq!(actual, expected);
}

#[test]
fn diff_words_goes_by_the_text_not_by_the_slice() {
    let a = String::from("one two");
    let b = String::from("two one two");
    let old_words: Vec<&str> = a.split(' ').collect();
    let new_words: Vec<&str> = b.split(' ').collect();
    assert_eq!(
        diff_words(&old_words, &new_words),
        vec![
            Edit::Add { new: 0 },
            Edit::Common { old: 0, new: 1 },
            Edit::Common { old: 1, new: 2 },
        ]
    );
}

#[test]
fn diff_words_agrees_with_diff() {
    for (a, b) in SAMPLES {
        let a: Vec<String> = a.chars().map(|c| c.to_string()).collect();
        let b: Vec<String> = b.chars().map(|c| c.to_string()).collect();
        let old_words: Vec<&str> = a.iter().map(|s| s.as_str()).collect();
        let new_words: Vec<&str> = b.iter().map(|s| s.as_str()).collect();
        assert_eq!(diff_words(&old_words, &new_words), diff(&old_words, &new_words));
    }
}

#[test]
fn diff_words_of_empty_sequences_is_empty() {
    let none: Vec<&str> = vec![];
    assert_eq!(diff_words(&none, &none), vec![]);
}
