use vedit::cmd::handlers::{create_command_handlers, should_update_target_col, Handler};
use vedit::cmd::{parse_command, CmdBuf, Command, Delete, Movement};
use vedit::cmdbuf;
use vedit::digits::{decimal, extract_count, parse_usize};
use vedit::highlight::{capture_class, colorscheme, get_config, highlight_segments, Capture, Grammar};
use vedit::history::{Change, ChangeHistory};
use vedit::object::{parse_textobject as parse_object, Object, Variant};
use vedit::pattern::Pattern as CommandPattern;
use vedit::span::{Position, Span};
use vedit::textobject::{match_textobject, MatchResult, Pattern, TextObject};
use vedit::wordclass::WordClass;

fn change(old: &str, new: &str) -> Change {
    Change { span: Span::from((0, 0, 0, 1)), old: old.to_string(), new: new.to_string() }
}

#[test]
fn history_register_then_undo_gives_change_back() {
    let mut h = ChangeHistory::default();
    h.register(change("a", "b"));
    h.register(change("c", "d"));
    let undone = h.undo().unwrap();
    assert_eq!(undone.old, "c");
    let undone = h.undo().unwrap();
    assert_eq!(undone.old, "a");
    assert!(h.undo().is_none());
}

#[test]
fn history_redo_steps_forward() {
    let mut h = ChangeHistory::default();
    h.register(change("a", "b"));
    h.register(change("c", "d"));
    h.register(change("e", "f"));
    assert!(h.redo().is_none());
    h.undo();
    h.undo();
    let redone = h.redo().unwrap();
    assert_eq!(redone.old, "c");
    let redone = h.redo().unwrap();
    assert_eq!(redone.old, "e");
    assert!(h.redo().is_none());
}

#[test]
fn history_undo_then_redo_gives_change_back() {
    let mut h = ChangeHistory::default();
    h.register(change("a", "b"));
    assert_eq!(h.undo().unwrap().old, "a");
    let redone = h.redo().unwrap();
    assert_eq!(redone.old, "a");
    assert_eq!(redone.new, "b");
    assert_eq!(h.undo().unwrap().old, "a");
    assert!(ChangeHistory::default().redo().is_none());
}

#[test]
fn history_register_forgets_undone_changes() {
    let mut h = ChangeHistory::default();
    h.register(change("a", "b"));
    h.register(change("c", "d"));
    h.undo();
    h.register(change("x", "y"));
    assert_eq!(h.undo().unwrap().old, "x");
    assert_eq!(h.undo().unwrap().old, "a");
}

#[test]
fn change_flip_twice_is_identity() {
    let c = change("old", "new");
    let f = c.flip();
    assert_eq!(f.old, "new");
    assert_eq!(f.new, "old");
    let ff = f.flip();
    assert_eq!(ff.old, "old");
    assert_eq!(ff.new, "new");
}

#[test]
fn pattern_union_matches_best_of_parts() {
    let p = Pattern::from("<count>w").union(Pattern::from("<count>e"));
    assert_eq!(p.matches("3w"), MatchResult::Match);
    assert_eq!(p.matches("3e"), MatchResult::Match);
    assert_eq!(p.matches("3"), MatchResult::PartialMatch);
    assert_eq!(p.matches("3x"), MatchResult::NoMatch);
}

#[test]
fn command_pattern_rejects_bad_motion_suffix() {
    let r = CommandPattern::try_from("d<motion>x");
    assert_eq!(r.err(), Some("does not end with <motion>".to_string()));
    let ok = CommandPattern::try_from("d<motion>").unwrap();
    assert_eq!(ok.matches("diw"), MatchResult::Match);
    assert_eq!(ok.matches("d"), MatchResult::PartialMatch);
    assert_eq!(ok.matches("x"), MatchResult::NoMatch);
}

#[test]
fn match_textobject_cases() {
    assert_eq!(match_textobject("a"), MatchResult::PartialMatch);
    assert_eq!(match_textobject("0"), MatchResult::NoMatch);
    assert_eq!(match_textobject("iw"), MatchResult::Match);
    assert_eq!(match_textobject("x"), MatchResult::NoMatch);
}

#[test]
fn object_parse_reads_inner_by_default() {
    assert_eq!(parse_object("w").0, Some((Object::Word, Variant::Inner, None)));
    assert_eq!(parse_object("2a(").0, Some((Object::Paren, Variant::Around, Some(2))));
    assert_eq!(parse_object("2a(").1, 3);
    assert_eq!(parse_object("q").0, None);
    assert_eq!(Object::CurlyBracket.open_symbol(), Some('{'));
    assert_eq!(Object::CurlyBracket.close_symbol(), Some('}'));
    assert_eq!(Object::Word.open_symbol(), None);
    assert_eq!(TextObject::Paren.close_symbol(), Some(')'));
}

#[test]
fn parse_command_grammar() {
    let chars = |s: &str| -> Vec<char> { s.chars().collect() };
    assert_eq!(parse_command(&chars("10")), None);
    assert_eq!(parse_command(&chars("d")), None);
    assert_eq!(
        parse_command(&chars("3$")),
        Some(Command::Movement(Movement { count: Some(3), char: '$' }))
    );
    assert_eq!(
        parse_command(&chars("da(")),
        Some(Command::Delete(Delete {
            count: None,
            text_object: Some((vedit::textobject::Boundary::Around, TextObject::Paren)),
            movement: None,
            linewise: false,
        }))
    );
    assert_eq!(parse_command(&chars("{a[b]}")), Some(Command::Invalid));
    assert_eq!(parse_command(&chars("{a[b}]")), None);
}

#[test]
fn cmd_buffer_counts_and_pops() {
    let mut b = CmdBuf::new();
    b.push('1');
    b.push('2');
    b.push('d');
    assert_eq!(b.last(), Some('d'));
    assert!(b.count_fits());
    assert_eq!(b.pop_count(1), 12);
    assert_eq!(b.text(), "d");
    assert_eq!(b.pop_left(), Some('d'));
    assert_eq!(b.pop_left(), None);
    assert_eq!(b.pop_count(7), 7);
    b.push('4');
    b.push('2');
    assert_eq!(b.count(), 42);
    assert!(b.is_empty());
    assert_eq!(b.count(), 1);
    b.push('x');
    assert_eq!(b.pop(), Some('x'));
    assert_eq!(b.drain(), Vec::<char>::new());
}

#[test]
fn simple_cmd_buffer_count() {
    let mut b = cmdbuf::CmdBuf::new();
    assert_eq!(b.count(), 1);
    b.push('3');
    b.push('1');
    assert_eq!(b.count(), 31);
    b.push('x');
    assert_eq!(b.count(), 1);
}

#[test]
fn digits_parse_and_render() {
    let v: Vec<char> = "+42".chars().collect();
    assert_eq!(parse_usize(&v, 0, 3), Some(42));
    let w: Vec<char> = "99999999999999999999999".chars().collect();
    assert_eq!(parse_usize(&w, 0, w.len()), None);
    let (count, rest) = extract_count(&"12ab".chars().collect::<Vec<char>>());
    assert_eq!(count, Some(12));
    assert_eq!(rest, vec!['a', 'b']);
    assert_eq!(decimal(907), vec!['9', '0', '7']);
}

#[test]
fn span_and_position_formulas() {
    let p = Position { row: 1, col: 2 };
    assert_eq!(p.to_string(), "(1,2)");
    let s = Span::from("ab\ncd");
    assert_eq!(s.end, Position { row: 1, col: 2 });
    assert_eq!(p.add(Span::from("xy")), Position { row: 1, col: 4 });
    assert_eq!(p.add(s), Position { row: 2, col: 2 });
    let sp = Span::from((0, 1, 0, 5));
    assert_eq!(sp.shrink(1), Span::from((0, 2, 0, 4)));
    assert_eq!(sp.delta_rows(), 0);
    assert!(Span::empty_at(3, 3).is_empty());
    assert!(Position { row: 0, col: 9 }.lt(&Position { row: 1, col: 0 }));
}

#[test]
fn word_classes() {
    assert_eq!(WordClass::from('a'), WordClass::alphanumeric());
    assert_eq!(WordClass::from('_'), WordClass::alphanumeric());
    assert_eq!(WordClass::from('\t'), WordClass::whitespace());
    assert_eq!(WordClass::from('\n'), WordClass::newline());
    assert_eq!(WordClass::from('('), WordClass::symbols());
    let both = WordClass::alphanumeric().bitor(WordClass::symbols());
    assert!(both.contains(WordClass::symbols()));
    assert!(!both.contains(WordClass::newline()));
    assert_eq!(both.bitand(WordClass::symbols()), WordClass::symbols());
}

#[test]
fn highlight_classes_and_segments() {
    assert_eq!(capture_class("keyword"), Capture::Keyword);
    assert_eq!(capture_class("function.call"), Capture::Func);
    assert_eq!(capture_class("text.title"), Capture::Keyword);
    assert_eq!(capture_class("nothing"), Capture::Plain);
    assert_eq!(colorscheme(&Capture::Number).fg, 0xd3869b);
    assert!(colorscheme(&Capture::Comment).italic);
    assert_eq!(get_config("md"), Some(vec![Grammar::MarkdownBlock, Grammar::MarkdownInline]));
    assert_eq!(get_config("rs"), None);
    let caps = vec![(8, 10, Capture::Number), (0, 3, Capture::Keyword), (1, 2, Capture::Type), (4, 5, Capture::Plain)];
    assert_eq!(
        highlight_segments(12, &caps),
        vec![
            (0, 3, Capture::Keyword),
            (3, 8, Capture::Plain),
            (8, 10, Capture::Number),
            (10, 12, Capture::Plain),
        ]
    );
}

#[test]
fn command_handlers_and_target_column() {
    let hs = create_command_handlers();
    assert_eq!(hs.len(), 5);
    assert_eq!(hs[2].1, Handler::Delete);
    assert_eq!(hs[2].0.matches("diw"), MatchResult::Match);
    assert_eq!(hs[1].0.matches("A"), MatchResult::Match);
    assert_eq!(should_update_target_col(&Movement { count: None, char: '$' }), (true, Some(9999)));
    assert_eq!(should_update_target_col(&Movement { count: None, char: 'w' }), (true, None));
    assert_eq!(should_update_target_col(&Movement { count: None, char: 'j' }), (false, None));
}

#[test]
fn single_motion_keys_parse_as_movements() {
    for c in ['h', 'j', 'k', 'l', '0', '$', 'G', 'w', 'W', 'b', 'B', 'e', 'E'] {
        assert_eq!(
            parse_command(&vec![c]),
            Some(Command::Movement(Movement { count: None, char: c }))
        );
        assert_eq!(
            parse_command(&vec!['d', c]),
            Some(Command::Delete(Delete {
                count: None,
                text_object: None,
                movement: Some(Movement { count: None, char: c }),
                linewise: false,
            }))
        );
    }
    let chars: Vec<char> = "127e".chars().collect();
    assert_eq!(
        parse_command(&chars),
        Some(Command::Movement(Movement { count: Some(127), char: 'e' }))
    );
}

#[test]
fn highlight_segments_cover_the_code() {
    let caps = vec![
        (7, 15, Capture::Comment),
        (2, 5, Capture::Keyword),
        (3, 4, Capture::String),
        (5, 5, Capture::Type),
    ];
    let segs = highlight_segments(10, &caps);
    assert_eq!(
        segs,
        vec![
            (0, 2, Capture::Plain),
            (2, 5, Capture::Keyword),
            (5, 5, Capture::Type),
            (5, 7, Capture::Plain),
            (7, 10, Capture::Comment),
        ]
    );
    assert_eq!(segs[0].0, 0);
    for i in 1..segs.len() {
        assert_eq!(segs[i].0, segs[i - 1].1);
    }
    assert_eq!(segs[segs.len() - 1].1, 10);
    assert!(highlight_segments(0, &vec![]).is_empty());
}

#[test]
fn go_highlight() {
    let code = "var x = 42 // count\n";
    let segs = vedit::highlight::highlight("go", code);

    let color_for_number = 0xd3869b;

    assert!(segs
        .iter()
        .any(|&(s, e, cap)| &code[s..e] == "42" && cap != Capture::Plain && colorscheme(&cap).fg == color_for_number));
}

#[test]
fn highlight_by_file_type() {
    assert_eq!(vedit::highlight::highlight("rs", "fn main"), vec![(0, 7, Capture::Plain)]);
    assert_eq!(vedit::highlight::highlight("txt", ""), vec![(0, 0, Capture::Plain)]);
    let code = "var x = 42 // count\n";
    let segs = vedit::highlight::highlight("go", code);
    assert_eq!(segs[0], (0, 3, Capture::Keyword));
    assert_eq!(segs[0].0, 0);
    for i in 1..segs.len() {
        assert_eq!(segs[i].0, segs[i - 1].1);
    }
    assert_eq!(segs[segs.len() - 1].1, code.len());
    assert!(segs.contains(&(11, 19, Capture::Comment)));
    let md = vedit::highlight::highlight("md", "# Title\n\nsome *text*\n");
    assert_eq!(md[md.len() - 1].1, "# Title\n\nsome *text*\n".len());
}

#[test]
fn highlight_segments_skip_backward_ranges() {
    let caps = vec![(5, 3, Capture::Keyword), (12, 20, Capture::Comment), (1, 2, Capture::Type)];
    assert_eq!(
        highlight_segments(8, &caps),
        vec![(0, 1, Capture::Plain), (1, 2, Capture::Type), (2, 8, Capture::Plain)]
    );
}

#[test]
fn command_pattern_bitor_matches_either() {
    let p = CommandPattern::try_from("w[rite]").unwrap().bitor(CommandPattern::try_from("q").unwrap());
    assert_eq!(p.matches("w"), MatchResult::Match);
    assert_eq!(p.matches("wri"), MatchResult::Match);
    assert_eq!(p.matches("write"), MatchResult::Match);
    assert_eq!(p.matches("q"), MatchResult::Match);
    assert_eq!(p.matches("x"), MatchResult::NoMatch);
}

#[test]
fn layout_expands_tabs_and_splits_lines() {
    let k = Capture::Keyword;
    let p = Capture::Plain;
    let cells: Vec<(char, Capture)> =
        vec![('a', k), ('\t', p), ('b', p), ('\n', p), ('\t', k), ('\t', k), ('c', p), ('\n', p), ('x', p)];
    let lines = vedit::layout::layout(&cells);
    assert_eq!(lines.len(), 2);
    assert_eq!(lines[0], vec![('a', k), (' ', p), (' ', p), (' ', p), ('b', p)]);
    assert_eq!(lines[1].len(), 9);
    assert_eq!(lines[1][7], (' ', k));
    assert_eq!(lines[1][8], ('c', p));

    let row: Vec<(char, Capture)> = "ab\tc\t\n".chars().map(|c| (c, p)).collect();
    let lines = vedit::layout::layout(&row);
    let text: String = lines[0].iter().map(|&(c, _)| c).collect();
    assert_eq!(text, "ab  c ");
}

#[test]
fn terminated_lines_end_every_line_with_a_newline() {
    let t: String = vedit::layout::terminated_lines("ab\r\ncd\n\nx").into_iter().collect();
    assert_eq!(t, "ab\ncd\n\nx\n");
    assert!(vedit::layout::terminated_lines("").is_empty());
}

#[test]
fn highlight_go_segments_follow_the_captures() {
    let code = "package main\n";
    let segs = vedit::highlight::highlight("go", code);
    assert_eq!(segs[0], (0, 7, Capture::Keyword));
    assert_eq!(segs[segs.len() - 1].1, code.len());
    assert!(segs.len() > 1);
}
