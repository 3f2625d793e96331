use vedit::gap::Gap;

#[test]
fn gap_simple() {
    let mut g = Gap::new(10);
    g.insert('h');
    g.insert('i');
    assert_eq!(g.text(), "hi");
}

#[test]
fn gap_left() {
    let mut g = Gap::new(10);
    g.insert('h');
    g.insert('i');
    g.left();
    g.insert('a');
    g.show();
    assert_eq!(g.text(), "hai");
}

#[test]
fn gap_backspace() {
    let mut g = Gap::new(10);
    g.insert('h');
    g.insert('i');
    g.left();
    g.backspace();
    g.show();
    assert_eq!(g.text(), "i");
}

#[test]
fn gap_grow() {
    let mut g = Gap::new(3);
    g.insert('1');
    g.insert('2');
    g.insert('3');
    g.insert('4');
    assert_eq!(g.text(), "1234", "Failed:\n{}\n", g.show());
}

#[test]
fn gap_more_cases() {
    let cases: Vec<(&str, &str)> = vec![
        ("12X3", "13"),
        ("11LL22LL33", "332211"),
        ("1L2RR3", "213"),
        ("1LR2", "12"),
    ];

    for (i, (seq, want)) in cases.into_iter().enumerate() {
        let mut g = Gap::new(10);
        for cmd in seq.chars() {
            match cmd {
                'X' => g.backspace(),
                'L' => g.left(),
                'R' => g.right(),
                '0'..='9' => g.insert(cmd),
                _ => panic!("unknown character '{}'", cmd),
            }
        }
        assert_eq!(want, g.text(), "Case {} failed: \n{}", i, g.show());
    }
}

#[test]
fn gap_insert_then_remove_gives_text_back() {
    let mut g = Gap::new(4);
    g.insert('a');
    g.insert('b');
    g.left();
    g.insert('x');
    assert_eq!(g.text(), "axb");
    g.backspace();
    assert_eq!(g.text(), "ab");
}

#[test]
fn gap_delete_forward_and_cells() {
    let mut g = Gap::new(4);
    g.insert('a');
    g.insert('b');
    g.left();
    g.left();
    g.delete_forward();
    assert_eq!(g.text(), "b");
    assert_eq!(g.cursor_index(), 0);
    assert_eq!(g.len(), 1);
    assert_eq!(g.storage_len(), 4);
}

#[test]
fn gap_show_marks_cursor_and_gap_end() {
    let mut g = Gap::new(3);
    g.insert('a');
    g.left();
    assert_eq!(g.show(), "axa\nC.D");
}
