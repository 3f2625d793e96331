use vedit::simple_buffer::Buffer;

#[test]
fn buffer_simple() {
    let mut g = Buffer::new(10);
    g.insert('h');
    g.insert('i');
    assert_eq!(g.text(), "hi");
}

#[test]
fn buffer_left() {
    let mut g = Buffer::new(10);
    g.insert('h');
    g.insert('i');
    g.left(1);
    g.insert('a');
    g.show();
    assert_eq!(g.text(), "hai");
}

#[test]
fn buffer_backspace() {
    let mut g = Buffer::new(10);
    g.insert('h');
    g.insert('i');
    g.left(1);
    g.backspace(1);
    g.show();
    assert_eq!(g.text(), "i");
}

#[test]
fn buffer_grow() {
    let mut g = Buffer::new(3);
    g.insert('1');
    g.insert('2');
    g.insert('3');
    g.insert('4');
    assert_eq!(g.text(), "1234", "Failed:\n{}\n", g.show());
}

#[test]
fn buffer_more_cases() {
    let cases: Vec<(&str, &str)> = vec![
        ("12X3", "13"),
        ("11LL22LL33", "332211"),
        ("1L2RR3", "213"),
        ("1LR2", "12"),
    ];

    for (i, (seq, want)) in cases.into_iter().enumerate() {
        let mut g = Buffer::new(10);
        for cmd in seq.chars() {
            match cmd {
                'X' => g.backspace(1),
                'L' => g.left(1),
                'R' => g.right(1),
                '0'..='9' => g.insert(cmd),
                _ => panic!("unknown character '{}'", cmd),
            }
        }
        assert_eq!(want, g.text(), "Case {} failed: \n{}", i, g.show());
    }
}

#[test]
fn buffer_text_line_count() {
    let g = Buffer::from("the cat\nsat in\na tree");
    assert_eq!(g.text().lines().count(), 3);
}

#[test]
fn buffer_newlines() {
    let mut g = Buffer::from("the cat\nsat in\na tree");
    assert_eq!("the cat\nsat in\na tree", g.text());

    g.position(2, 2); // 'a t' -> t
    assert_eq!('t', g.current_char());

    assert_eq!(2, g.row);
    assert_eq!(2, g.col);

    g.position(0, 100);
    assert_eq!('t', g.current_char());
    assert_eq!(0, g.row);

    g.position(1, 0);
    assert_eq!('s', g.current_char());
    assert_eq!("the cat\nsat in\na tree", g.text());
    assert_eq!(1, g.row);
    assert_eq!(0, g.col);
}

#[test]
fn buffer_test_advance_word_forward() {
    struct Testcase {
        input: &'static str,
        count: isize,
        want_char: char,
    }

    let cases = [
        Testcase {
            input: "The cat sat",
            count: 1,
            want_char: 'c',
        },
        Testcase {
            input: "The cat sat",
            count: 2,
            want_char: 's',
        },
    ];

    for (i, tc) in cases.iter().enumerate() {
        let start = tc
            .input
            .chars()
            .position(|c| c.is_ascii_uppercase())
            .unwrap();
        let text = tc.input.to_lowercase();
        let len = text.len();
        let mut b = Buffer::from(text.as_str());
        b.left(len - start);
        println!("start\n{}\n", b.show());
        b.advance_word(tc.count);
        println!("after\n{}\n", b.show());
        assert_eq!(tc.want_char, b.current_char(), "Case {i} failed");
    }
}

#[test]
fn buffer_test_advance_word_backward() {
    struct Testcase {
        input: &'static str,
        count: isize,
        want_char: char,
    }

    let cases = [
        Testcase {
            input: "the cat Sat",
            count: -1,
            want_char: 'c',
        },
        Testcase {
            input: "the cat sAt",
            count: -1,
            want_char: 's',
        },
        Testcase {
            input: "the cat Sat",
            count: -2,
            want_char: 't',
        },
        Testcase {
            input: "the cat sAt",
            count: -2,
            want_char: 'c',
        },
        Testcase {
            input: "the cat    sAt",
            count: -2,
            want_char: 'c',
        },
    ];

    for (i, tc) in cases.iter().enumerate() {
        let start = tc
            .input
            .chars()
            .position(|c| c.is_ascii_uppercase())
            .unwrap();
        let text = tc.input.to_lowercase();
        let len = text.len();
        let mut b = Buffer::from(text.as_str());
        b.left(len - start);
        b.advance_word(tc.count);
        assert_eq!(tc.want_char, b.current_char(), "Case {i} failed");
    }
}

#[test]
fn buffer_from_counts_rows_and_columns() {
    let b = Buffer::from("ab\ncde");
    assert_eq!(b.row, 1);
    assert_eq!(b.col, 3);
    assert_eq!(b.current_line(), "cde");
}

#[test]
fn buffer_right_stops_at_end() {
    let mut b = Buffer::from("ab");
    b.right(5);
    assert_eq!(b.text(), "ab");
    assert_eq!(b.col, 2);
    b.left(1);
    assert_eq!(b.col, 1);
    assert_eq!(b.prev_char(), Some('a'));
}

#[test]
fn buffer_left_over_newline_takes_end_column() {
    let mut b = Buffer::from("abc\nd");
    b.left(2);
    assert_eq!(b.row, 0);
    assert_eq!(b.col, 1);
}

#[test]
fn buffer_advance_word_zero_steps_once() {
    let mut b = Buffer::from("ab cd");
    b.left(5);
    b.advance_word(0);
    assert_eq!(b.current_char(), 'b');
}

#[test]
fn buffer_right_then_left_comes_back() {
    let mut b = Buffer::from("ab\ncde");
    b.left(6);
    assert_eq!(b.current_char(), 'a');
    b.right(4);
    assert_eq!(b.current_char(), 'd');
    b.left(4);
    assert_eq!(b.current_char(), 'a');
    assert_eq!(b.text(), "ab\ncde");
}

#[test]
fn buffer_position_on_one_line_text() {
    let mut b = Buffer::from("test");
    b.position(0, 0);
    assert_eq!(b.text(), "test");
    assert_eq!(b.current_char(), 't');
    assert_eq!(b.row, 0);
    assert_eq!(b.col, 0);
    b.position(0, 9);
    assert_eq!(b.current_char(), 't');
    assert_eq!(b.col, 3);
    b.position(0, 1);
    assert_eq!(b.current_char(), 'e');
}
