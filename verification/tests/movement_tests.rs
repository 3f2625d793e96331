use vedit::movement::{next_word, prev_word};

#[test]
fn prev_word_finds_word_starts_back() {
    assert_eq!(prev_word("the cat Sat", 8, 1), Some(4));
    assert_eq!(prev_word("the cat sAt", 9, 1), Some(8));
    assert_eq!(prev_word("the cat sat", 8, 2), None);
    assert_eq!(prev_word("x the", 5, 1), Some(2));
    assert_eq!(prev_word("ab", 0, 0), Some(0));
}

#[test]
fn next_word_counts_runs_of_blanks() {
    assert_eq!(next_word("a  b c", 0, 1), Some(3));
    assert_eq!(next_word("a  b", 0, 1), Some(3));
    assert_eq!(next_word("a  b c", 0, 2), Some(5));
    assert_eq!(next_word("a  b c", 0, 3), None);
    assert_eq!(next_word("ab", 5, 0), None);
    assert_eq!(next_word("ab", 0, 0), Some(0));
    assert_eq!(next_word("a  ", 0, 1), None);
}

#[test]
fn test_next_word() {
    // The text input. all lowercase except one letter which is going to be
    // the cursor position. We use a substring to find the desired ending word.
    struct Testcase {
        input: &'static str,
        count: usize,
        want: &'static str,
    }

    let cases = vec![
        Testcase {
            input: "The cat sat",
            count: 1,
            want: "cat",
        },
        Testcase {
            input: "The cat sat",
            count: 2,
            want: "sat",
        },
        Testcase {
            input: "The cat sat",
            count: 3,
            want: "",
        },
        Testcase {
            input: "tHe cat sat",
            count: 1,
            want: "cat",
        },
        Testcase {
            input: "a B ] long",
            count: 1,
            want: "]",
        },
    ];

    cases.iter().enumerate().for_each(|(i, tc)| {
        let start = tc
            .input
            .chars()
            .position(|c| c.is_ascii_uppercase())
            .expect("Failed to find start position");

        let want: Option<usize> = if tc.want.is_empty() {
            None
        } else {
            Some(
                tc.input
                    .find(tc.want)
                    .map(|pos| pos)
                    .expect("Failed to find want position"),
            )
        };

        let got = next_word(tc.input, start, tc.count);
        assert_eq!(want, got, "Testcase {i} failed");
    });
}

#[test]
fn test_prev_word() {
    struct Testcase {
        input: &'static str,
        count: usize,
        want: &'static str,
    }

    let cases = vec![
        Testcase {
            input: "the cat Sat",
            count: 1,
            want: "cat",
        },
        Testcase {
            input: "the cat sAt",
            count: 1,
            want: "sat",
        },
    ];

    cases.iter().enumerate().for_each(|(i, tc)| {
        let start = tc
            .input
            .chars()
            .position(|c| c.is_ascii_uppercase())
            .expect("Failed to find start position");

        // The cursor's letter is written in upper case in the input, so the
        // wanted word is looked up without regard to case.
        let want: Option<usize> = if tc.want.is_empty() {
            None
        } else {
            Some(
                tc.input
                    .to_lowercase()
                    .find(tc.want)
                    .expect("Failed to find want position"),
            )
        };

        let got = prev_word(tc.input, start, tc.count);
        assert_eq!(want, got, "Testcase {i} failed");
    });
}
