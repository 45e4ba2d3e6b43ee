use wordcount::{canonical_order, CountResult, Mode};

#[test]
fn each_flag_selects_its_mode() {
    assert_eq!(Mode::from_str("-l"), Some(Mode::Lines));
    assert_eq!(Mode::from_str("-w"), Some(Mode::Words));
    assert_eq!(Mode::from_str("-m"), Some(Mode::Chars));
    assert_eq!(Mode::from_str("-c"), Some(Mode::Bytes));
}

#[test]
fn other_tokens_are_no_flags() {
    for token in ["", "-", "l", "-x", "-L", "--l", "-lw", "-l ", " -l", "notes.txt", "-é", "é-", "-ℓ"] {
        assert_eq!(Mode::from_str(token), None, "token {:?}", token);
    }
}

#[test]
fn modes_are_ordered_as_the_columns() {
    assert!(Mode::Lines < Mode::Words);
    assert!(Mode::Words < Mode::Chars);
    assert!(Mode::Chars < Mode::Bytes);
}

#[test]
fn canonical_order_sorts_and_drops_repetitions() {
    let asked = vec![Mode::Bytes, Mode::Lines, Mode::Bytes, Mode::Words, Mode::Lines];
    assert_eq!(canonical_order(&asked), vec![Mode::Lines, Mode::Words, Mode::Bytes]);
}

#[test]
fn canonical_order_agrees_with_sort_and_dedup() {
    let all = [Mode::Lines, Mode::Words, Mode::Chars, Mode::Bytes];
    for a in all {
        for b in all {
            for c in all {
                for d in all {
                    for len in 0..=4usize {
                        let asked: Vec<Mode> = [a, b, c, d][..len].to_vec();
                        let mut expected = asked.clone();
                        expected.sort();
                        expected.dedup();
                        assert_eq!(canonical_order(&asked), expected);
                    }
                }
            }
        }
    }
}

#[test]
fn canonical_order_of_nothing_is_nothing() {
    assert_eq!(canonical_order(&Vec::new()), Vec::<Mode>::new());
}

#[test]
fn result_from_mode_selects_the_count() {
    let count = CountResult { summary: None, lines: 1, words: 2, chars: 3, bytes: 4 };
    assert_eq!(count.result_from_mode(&Mode::Lines), 1);
    assert_eq!(count.result_from_mode(&Mode::Words), 2);
    assert_eq!(count.result_from_mode(&Mode::Chars), 3);
    assert_eq!(count.result_from_mode(&Mode::Bytes), 4);
}

#[test]
fn new_and_default_results_are_zero() {
    let named = CountResult::new(Some("a.txt".to_string()));
    assert_eq!(
        named,
        CountResult { summary: Some("a.txt".to_string()), lines: 0, words: 0, chars: 0, bytes: 0 }
    );
    let plain = CountResult::default();
    assert_eq!(plain, CountResult { summary: None, lines: 0, words: 0, chars: 0, bytes: 0 });
    assert_eq!(CountResult::new(None), plain);
}
