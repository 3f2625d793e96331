use vedit::buffer::Buffer;
use vedit::history::Change;
use vedit::object::Object::{CurlyBracket, Paren, Word};
use vedit::object::TextObject;
use vedit::object::Variant::{Around, Inner};
use vedit::span::{Position, Span};

#[test]
fn tests_simple() {
    let mut g = Buffer::new(10);
    g.insert('h');
    g.insert('i');
    assert_eq!(g.text(), "hi");
}

#[test]
fn tests_left() {
    let mut g = Buffer::new(10);
    g.insert('h');
    g.insert('i');
    g.left(1);
    g.insert('a');
    g.show();
    assert_eq!(g.text(), "hai");
}

#[test]
fn tests_backspace() {
    let mut g = Buffer::new(10);
    g.insert('h');
    g.insert('i');
    g.left(1);
    g.backspace(1);
    g.show();
    assert_eq!(g.text(), "i");
}

#[test]
fn tests_grow() {
    let mut g = Buffer::new(3);
    g.insert('1');
    g.insert('2');
    g.insert('3');
    g.insert('4');
    assert_eq!(g.text(), "1234", "Failed:\n{}\n", g.show());
}

#[test]
fn tests_more_cases() {
    let cases: Vec<(&str, &str)> = vec![
        ("12X3", "13"),
        ("11LL22LL33", "332211"),
        // ("1L2RR3", "213"),
        // ("1LR2", "12"),
    ];

    for (i, (seq, want)) in cases.into_iter().enumerate() {
        let mut g = Buffer::new(10);
        for cmd in seq.chars() {
            match cmd {
                'X' => g.backspace(1),
                'L' => g.left(1),
                'R' => g.right(1),
                '0'..='9' => g.insert(cmd),
                _ => panic!("unknown character '{}'", cmd),
            }
        }
        assert_eq!(want, g.text(), "Case {} failed: \n{}", i, g.show());
    }
}

#[test]
fn tests_text_line_count() {
    let g = Buffer::from("the cat\nsat in\na tree");
    assert_eq!(g.text().lines().count(), 3);
}

#[test]
fn tests_newlines() {
    let mut g = Buffer::from("the cat\nsat in\na tree");
    assert_eq!("the cat\nsat in\na tree", g.text());

    g.position(2, 2); // 'a t' -> t
    assert_eq!('t', g.current_char());

    assert_eq!(2, g.row);
    assert_eq!(2, g.col);
}

#[test]
fn test_position() {
    let mut g = Buffer::from("test");
    g.position(0, 0);
    assert_eq!('t', g.current_char());
}

#[test]
fn test_position_2() {
    let mut g = Buffer::from("foo\nbar");
    g.position(0, 0);
    g.w(1);
    assert_eq!('b', g.current_char());
    g.b(1);
    assert_eq!('f', g.current_char());

    let mut g2 = Buffer::from("- [ ] insert some characters");
    g2.position(0, "- [ ] insert some ".len());
    g2.b(1);
    assert_eq!('s', g2.current_char());

    let mut g3 = Buffer::from("- [ ] open file\n- [ ] insert some characters\n- [x ] save file");
    g3.position(1, 10);

    println!("====");
    g3.show();
    println!("====");

    g3.b(1);
    assert_eq!('i', g3.current_char());

    let mut g4 = Buffer::from("two steps forward one step back");
    g4.position(0, 0);
    g4.w(2);
    assert_eq!('f', g4.current_char());
    g4.b(1);
    assert_eq!('s', g4.current_char());
    g4.w(2);
    assert_eq!('o', g4.current_char());
    g4.b(1);
    assert_eq!('f', g4.current_char());
}

#[test]
fn tests_test_advance_word_forward() {
    struct Testcase {
        input: &'static str,
        count: usize,
        want_char: char,
    }

    let cases = [
        Testcase {
            input: "The cat sat",
            count: 1,
            want_char: 'c',
        },
        Testcase {
            input: "The cat sat",
            count: 2,
            want_char: 's',
        },
        Testcase {
            input: "the Cat sat",
            count: 1,
            want_char: 's',
        },
        Testcase {
            input: "tHe cat sat",
            count: 1,
            want_char: 'c',
        },
        Testcase {
            input: "a B ] long",
            count: 1,
            want_char: ']',
        },
    ];

    // let _ = env_logger::builder().is_test(true).try_init();
    for (i, tc) in cases.iter().enumerate() {
        let start = tc
            .input
            .chars()
            .position(|c| c.is_ascii_uppercase())
            .unwrap();
        let text = tc.input.to_lowercase();
        let mut b = Buffer::from(text.as_str());
        b.position(0, start);
        b.w(tc.count);
        assert_eq!(tc.want_char, b.current_char(), "Case {i} failed");
    }
}

#[test]
fn tests_test_advance_word_backward() {
    struct Testcase {
        input: &'static str,
        count: usize,
        want_char: char,
    }

    let cases = [
        Testcase {
            input: "abc cde Efg",
            count: 1,
            want_char: 'c',
        },
        Testcase {
            input: "the cat sAt",
            count: 1,
            want_char: 's',
        },
        Testcase {
            input: "the cat Sat",
            count: 2,
            want_char: 't',
        },
        Testcase {
            input: "the cat sAt",
            count: 2,
            want_char: 'c',
        },
        Testcase {
            input: "the cat    sAt",
            count: 2,
            want_char: 'c',
        },
    ];

    for (i, tc) in cases.iter().enumerate() {
        let start = tc
            .input
            .chars()
            .position(|c| c.is_ascii_uppercase())
            .unwrap();
        let text = tc.input.to_lowercase();
        let mut b = Buffer::from(text.as_str());
        b.position(0, start);

        println!("Testcase {i}:");
        b.show();
        println!("will call b.prev_word({})", tc.count);

        b.b(tc.count);
        assert_eq!(tc.want_char, b.current_char(), "Case {i} failed");
    }
}

#[test]
fn test_e() {
    struct Testcase {
        input: &'static str,
        count: usize,
        want_char: char,
    }

    let cases = [
        Testcase {
            input: "Abc def ghi",
            count: 1,
            want_char: 'c',
        },
        Testcase {
            input: "aBc def ghi",
            count: 1,
            want_char: 'c',
        },
        Testcase {
            input: "abC def ghi",
            count: 1,
            want_char: 'f',
        },
        Testcase {
            input: "Abc def ghi",
            count: 2,
            want_char: 'f',
        },
        Testcase {
            input: "abc   Def ghi",
            count: 1,
            want_char: 'f',
        },
        Testcase {
            input: "abc Def",
            count: 1,
            want_char: 'f',
        },
    ];

    for (i, tc) in cases.iter().enumerate() {
        let start = tc
            .input
            .chars()
            .position(|c| c.is_ascii_uppercase())
            .unwrap();
        let text = tc.input.to_lowercase();
        let mut b = Buffer::from(text.as_str());
        b.position(0, start);
        b.e(tc.count);
        assert_eq!(tc.want_char, b.current_char(), "Case {i} failed");
    }
}

#[test]
fn test_x() {
    struct Testcase {
        input: &'static str,
        row: usize,
        col: usize,
        count: usize,
        want_text: &'static str,
        want_char: Option<char>,
    }

    let cases = [
        Testcase {
            input: "abcd",
            row: 0,
            col: 0,
            count: 1,
            want_text: "bcd",
            want_char: Some('b'),
        },
        Testcase {
            input: "abcd",
            row: 0,
            col: 2,
            count: 1,
            want_text: "abd",
            want_char: Some('d'),
        },
        Testcase {
            input: "abcde",
            row: 0,
            col: 1,
            count: 3,
            want_text: "ae",
            want_char: None,
        },
        Testcase {
            input: "ab\ncd",
            row: 0,
            col: 1,
            count: 1,
            want_text: "a\ncd",
            want_char: None,
        },
        Testcase {
            input: "a",
            row: 0,
            col: 0,
            count: 1,
            want_text: "",
            want_char: None,
        },
    ];

    for (i, tc) in cases.iter().enumerate() {
        let mut b = Buffer::from(tc.input);
        b.position(tc.row, tc.col);
        b.x(tc.count);
        assert_eq!(tc.want_text, b.text(), "Case {i} text mismatch");
        if let Some(ch) = tc.want_char {
            assert_eq!(ch, b.current_char(), "Case {i} char mismatch");
        }
    }

    // x should not cross newline (double-delete scenario)
    let mut b = Buffer::from("a\ncd");
    b.position(0, 0);
    b.x(1);
    assert_eq!("\ncd", b.text());
    b.x(1);
    assert_eq!("\ncd", b.text());
}

#[test]
fn test_j() {
    let mut b = Buffer::from("abcd\nefg\nhijk\nlmnop");
    b.position(0, 3); // on 'd'
    assert_eq!('d', b.current_char());

    b.j(1);
    assert_eq!('g', b.current_char(), "first j: expected 'g'");

    b.j(1);
    assert_eq!('k', b.current_char(), "second j: expected 'k'");

    b.j(1);
    assert_eq!('o', b.current_char(), "third j: expected 'o'");

    let mut b2 = Buffer::from(
        "-- [ ] open file mikael characters hello world\n- [x] savex mikael is here x\nl\n- hello worlde",
    );
    b2.position(0, 0);
    assert_eq!('-', b2.current_char());
    b2.w(4);
    // b2.position(0, 12);
    assert_eq!('f', b2.current_char());
    b2.j(1);
    assert_eq!('m', b2.current_char());
}

#[test]
fn test_k() {
    // abcd
    // efg
    // hijk
    // lmnop
    //    ^
    let mut b = Buffer::from("abcd\nefg\nhijk\nlmnop");
    b.position(3, 3); // on 'o'
    assert_eq!('o', b.current_char());

    b.k(1);
    assert_eq!('k', b.current_char(), "first k: expected 'k'");

    b.k(1);
    assert_eq!('g', b.current_char(), "second k: expected 'g'");

    b.k(1);
    assert_eq!('d', b.current_char(), "third k: expected 'd'");

    let mut b2 = Buffer::from("long\nx\nshort");
    b2.position(2, 0);
    assert_eq!('s', b2.current_char());
    b2.k(1);
    assert_eq!('x', b2.current_char());
    b2.k(1);
    assert_eq!('l', b2.current_char());

    let mut b3 = Buffer::from("x\nshort");
    // on the r
    b3.position(1, 3);
    assert_eq!('r', b3.current_char());
    b3.k(1);
    assert_eq!('x', b3.current_char());
}

#[test]
fn test_delete_span() {
    let mut b = Buffer::from("the cat sat");
    b.position(0, 5);
    // let span = b.span_for_textobject(Word, Inner, 1);
    // let span = b.span_for_textobject(TextObject(Inner, Word), 1);
    let span = TextObject(Inner, Word).span(&mut b);
    println!("span is {}", span.to_string());
    let text = b.delete_span(span, false);
    assert_eq!("the  sat", b.text());
    assert_eq!("cat", text);

    let change = Change {
        span,
        old: text,
        new: "".to_string(),
    };
    b.register_change(change);

    b.undo();
    assert_eq!("the cat sat", b.text());
}

#[test]
fn test_insert_span() {
    let mut b = Buffer::from("abc ghi");
    b.position(0, 5);
    assert_eq!("(0,5)", b.current_position().to_string());
    assert_eq!('h', b.current_char(),);

    b.insert_text(Position { row: 0, col: 4 }, "def  ");
    assert_eq!("abc def  ghi", b.text());
    assert_eq!('h', b.current_char());
}

#[test]
fn test_text_for_span() {
    let mut b = Buffer::from("the cat sat");
    b.position(0, 5);

    assert_eq!("cat", b.text_for_span(Span::from((0, 4, 0, 7))));

    // let span = b.span_for_textobject(TextObject(Inner, Word), 1);
    let span = TextObject(Inner, Word).span(&b);
    let text = b.text_for_span(span);

    assert_eq!("cat", text);
}

#[test]
fn test_char_at() {
    let sample = "the quick brown\nfox jumps over\nthe lazy dog";
    let chars: Vec<char> = sample.chars().collect();
    let n = chars.len();

    // For N random cursor positions, move the gap there, then verify
    // char_at returns the correct character for every index.
    let positions = [0, 1, 5, 10, 15, 16, 20, 25, 30, 35, n - 1];
    for &cursor_col in &positions {
        // Flatten row/col from the linear index
        let mut row = 0;
        let mut col = 0;
        for &ch in &chars[..cursor_col] {
            if ch == '\n' {
                row += 1;
                col = 0;
            } else {
                col += 1;
            }
        }

        let mut b = Buffer::from(sample);
        b.position(row, col);

        for i in 0..n {
            assert_eq!(
                Some(chars[i]),
                b.char_at(i),
                "char_at({i}) wrong when cursor at linear pos {cursor_col} (row={row}, col={col})"
            );
        }
        assert_eq!(
            None,
            b.char_at(n),
            "char_at(n) should be None when cursor at {cursor_col}"
        );
    }

    // Also verify char_at works with Position
    let b = Buffer::from(sample);
    assert_eq!(Some('t'), b.char_at_position(Position { row: 0, col: 0 }));
    assert_eq!(Some('q'), b.char_at_position(Position { row: 0, col: 4 }));
    assert_eq!(Some('f'), b.char_at_position(Position { row: 1, col: 0 }));
    assert_eq!(Some('r'), b.char_at_position(Position { row: 1, col: 13 }));
    assert_eq!(Some('d'), b.char_at_position(Position { row: 2, col: 9 }));
    assert_eq!(None, b.char_at_position(Position { row: 5, col: 0 }));

    // Verify to_position is the inverse of CharIndex for Position
    assert_eq!(Some(Position { row: 0, col: 0 }), b.to_position(0));
    assert_eq!(Some(Position { row: 0, col: 4 }), b.to_position(4));
    assert_eq!(Some(Position { row: 1, col: 0 }), b.to_position(16)); // after first '\n'
    assert_eq!(Some(Position { row: 2, col: 11 }), b.to_position(n - 1));
    assert_eq!(None, b.to_position(n + 100));
}

#[test]
fn insert_text_after_cursor_keeps_cursor() {
    let mut b = Buffer::from("abc ghi");
    b.position(0, 1);
    b.insert_text(Position { row: 0, col: 4 }, "def ");
    assert_eq!("abc def ghi", b.text());
    assert_eq!("(0,1)", b.current_position().to_string());
    assert_eq!('b', b.current_char());
}

#[test]
fn inner_word_span_includes_underscore() {
    let mut b = Buffer::from("a_b c");
    b.position(0, 0);
    let r = b.span(vedit::pattern::Motion {
        count: Some(1),
        boundary: vedit::textobject::Boundary::Inner,
        object: vedit::textobject::TextObject::Word,
    });
    assert_eq!(r, Span::from((0, 0, 0, 3)));
    assert_eq!(b.text_for_span(r), "a_b");
}

#[test]
fn d_on_blank_munches_blank_run() {
    let mut b = Buffer::from("the cat    sat");
    b.position(0, 7);
    b.d(1, vedit::textobject::Boundary::Current, vedit::textobject::TextObject::Word);
    assert_eq!(b.text(), "the catsat");
}

#[test]
fn delete_span_on_a_later_row() {
    let mut b = Buffer::from("ab\ncdef");
    let deleted = b.delete_span(Span::from((1, 1, 1, 3)), false);
    assert_eq!(deleted, "de");
    assert_eq!(b.text(), "ab\ncf");
    assert_eq!(b.current_position().to_string(), "(1,1)");
}

#[test]
fn w_crosses_a_long_word() {
    let mut b = Buffer::from("abcdefghijklmnopqrstuvwxy z");
    b.position(0, 0);
    b.w(1);
    assert_eq!(b.current_char(), 'z');
    assert_eq!(b.current_position().to_string(), "(0,26)");
}

#[test]
fn from_puts_cursor_at_start_of_long_text() {
    let text = "x".repeat(150) + "\nend";
    let b = Buffer::from(text.as_str());
    assert_eq!(b.text(), text);
    assert_eq!(b.current_position().to_string(), "(0,0)");
    assert_eq!(b.row, 0);
    assert_eq!(b.col, 0);
}

#[test]
fn position_past_line_end_goes_to_line_end() {
    let mut b = Buffer::from("abc\nde\nfghij");
    b.position(2, 4);
    b.position(1, 9);
    assert_eq!(b.current_position().to_string(), "(1,2)");
    b.position(0, 9);
    assert_eq!(b.current_position().to_string(), "(0,3)");
    b.position(2, 1);
    assert_eq!(b.current_char(), 'g');
    b.position(9, 0);
    assert_eq!(b.current_char(), 'g');
}

#[test]
fn tests_test_span() {
    let got = vedit::textobject::span(
        "the cat sat",
        vedit::textobject::Location::from((0, 5)),
        vedit::textobject::Boundary::Inner,
        vedit::textobject::TextObject::Word,
    );
    assert_eq!(got, Some(Span::from((0, 4, 0, 7))));

    let (a, i) = (vedit::textobject::Boundary::Around, vedit::textobject::Boundary::Inner);
    let (c, p, w) = (
        vedit::textobject::TextObject::CurlyBracket,
        vedit::textobject::TextObject::Paren,
        vedit::textobject::TextObject::Word,
    );
    let cases: Vec<(&str, (usize, usize), vedit::textobject::Boundary, vedit::textobject::TextObject, usize, &str)> = vec![
        ("(wow\n)", (0, 1), a, p, 1, "(wow\n)"),
        ("x{foo}y", (0, 1), a, c, 1, "{foo}"),
        ("x{foo}y", (0, 1), i, c, 1, "foo"),
        ("x(foo)y", (0, 1), i, p, 1, "foo"),
        (")x(", (0, 1), a, p, 2, ""),
        ("a (xxx) b)", (0, 4), a, p, 2, ""),
        ("a (xxx) b", (0, 4), a, p, 2, ""),
        ("a (xxx) b", (0, 4), a, p, 1, "(xxx)"),
        ("a (inner) b", (0, 5), i, p, 1, "inner"),
        ("the cat     sat", (0, 5), i, w, 2, "cat     "),
        ("the cat sat", (0, 5), i, w, 4, "cat sat"),
        ("the cat sat", (0, 5), i, w, 3, "cat sat"),
        ("the cat sat", (0, 5), i, w, 2, "cat "),
        ("abba", (0, 1), i, w, 3, "abba"),
        ("abba", (0, 1), i, w, 2, "abba"),
        ("abba", (0, 1), i, w, 1, "abba"),
        ("a.!b!", (0, 2), i, w, 1, ".!"),
        ("a.!b!", (0, 1), i, w, 2, ".!b"),
        ("a.!b", (0, 1), i, w, 2, ".!b"),
        ("a.!b", (0, 1), i, w, 1, ".!"),
        ("a..b", (0, 1), i, w, 1, ".."),
        ("a.b", (0, 0), i, w, 1, "a"),
        ("a.b", (0, 1), i, w, 1, "."),
        ("the cat sat", (0, 5), i, w, 1, "cat"),
    ];
    let mut failures = Vec::new();
    for (k, (input, pos, boundary, object, count, want)) in cases.iter().enumerate() {
        let mut b = Buffer::from(input);
        b.position(pos.0, pos.1);
        let got = match b.span_checked(vedit::pattern::Motion { count: Some(*count), boundary: *boundary, object: *object }) {
            Some(s) => b.text_for_span(s),
            None => "<none>".to_string(),
        };
        if got != *want {
            failures.push(format!("case {k}: input={input:?} want={want:?} got={got:?}"));
        }
    }
    assert!(failures.is_empty(), "{:#?}", failures);
}

#[test]
fn inner_bracket_span_is_around_span_shrunk() {
    let mut b = Buffer::from("x{foo}y");
    b.position(0, 3);
    let m = |boundary| vedit::pattern::Motion {
        count: Some(1),
        boundary,
        object: vedit::textobject::TextObject::CurlyBracket,
    };
    let around = b.span(m(vedit::textobject::Boundary::Around));
    let inner = b.span(m(vedit::textobject::Boundary::Inner));
    assert_eq!(b.text_for_span(around), "{foo}");
    assert_eq!(inner, around.shrink(1));
    assert_eq!(b.text_for_span(inner), "foo");
}

#[test]
fn undo_after_delete_on_a_later_row() {
    let mut b = Buffer::from("ab\ncdef\ng");
    let span = Span::from((1, 1, 1, 3));
    let text = b.delete_span(span, false);
    assert_eq!(b.text(), "ab\ncf\ng");
    b.register_change(Change { span, old: text, new: "".to_string() });
    b.undo();
    assert_eq!(b.text(), "ab\ncdef\ng");
}

#[test]
fn b_crosses_a_long_word() {
    let word = "y".repeat(60);
    let text = format!("x {word}");
    let mut b = Buffer::from(text.as_str());
    b.position(0, 61);
    b.b(1);
    assert_eq!(b.current_position().to_string(), "(0,2)");
    b.b(1);
    assert_eq!(b.current_position().to_string(), "(0,0)");
}

#[test]
fn d_checked_reports_and_deletes() {
    let mut b = Buffer::from("the cat sat");
    b.position(0, 4);
    assert!(b.d_checked(1, vedit::textobject::Boundary::Current, vedit::textobject::TextObject::Word));
    assert_eq!(b.text(), "the sat");
    assert!(!b.d_checked(1, vedit::textobject::Boundary::Around, vedit::textobject::TextObject::Paren));
    assert_eq!(b.text(), "the sat");
    assert!(b.d_checked(1, vedit::textobject::Boundary::Inner, vedit::textobject::TextObject::Word));
    assert_eq!(b.text(), "the ");
}
