use vedit::app::{App, AppEvent, Fault, Key, KeyPress, Mode, Request};

fn key(c: char) -> KeyPress {
    KeyPress { key: Key::Char(c), control: false }
}

fn plain(k: Key) -> KeyPress {
    KeyPress { key: k, control: false }
}

fn drain(app: &mut App) -> Vec<Request> {
    let mut requests = Vec::new();
    while let Some(ev) = app.next_event() {
        requests.push(app.handle_event(ev).unwrap());
    }
    requests
}

#[test]
fn app_starts_in_normal_mode() {
    let app = App::new("f.txt".to_string(), "hello\nworld");
    assert_eq!(app.mode, Mode::Normal);
    assert!(app.running);
    assert_eq!(app.buf.text(), "hello\nworld");
    assert_eq!(app.mode.to_string(), "NORMAL");
    assert_eq!(Mode::Insert.to_string(), "INSERT");
    assert_eq!(Mode::ExCommand.to_string(), "EXCOMMAND");
}

#[test]
fn app_ctrl_c_quits() {
    let mut app = App::new("f.txt".to_string(), "abc");
    app.handle_key_events(KeyPress { key: Key::Char('c'), control: true }).unwrap();
    assert_eq!(app.events, vec![AppEvent::Quit]);
    drain(&mut app);
    assert!(!app.running);
}

#[test]
fn app_insert_mode_writes_characters() {
    let mut app = App::new("f.txt".to_string(), "abc");
    app.handle_key_events(key('i')).unwrap();
    drain(&mut app);
    assert_eq!(app.mode, Mode::Insert);
    app.handle_key_events(key('X')).unwrap();
    app.handle_key_events(plain(Key::Enter)).unwrap();
    drain(&mut app);
    assert_eq!(app.buf.text(), "X\nabc");
    app.handle_key_events(plain(Key::Esc)).unwrap();
    drain(&mut app);
    assert_eq!(app.mode, Mode::Normal);
}

#[test]
fn app_insert_backspace_stops_at_line_start() {
    let mut app = App::new("f.txt".to_string(), "abc");
    app.handle_key_events(key('i')).unwrap();
    drain(&mut app);
    app.handle_key_events(key('Z')).unwrap();
    drain(&mut app);
    app.handle_key_events(plain(Key::Backspace)).unwrap();
    assert_eq!(app.buf.text(), "abc");
    app.handle_key_events(plain(Key::Backspace)).unwrap();
    assert_eq!(app.buf.text(), "abc");
}

#[test]
fn app_x_deletes_with_count() {
    let mut app = App::new("f.txt".to_string(), "abcdef");
    app.cmdbuf.push('2');
    app.handle_key_events(key('x')).unwrap();
    assert_eq!(app.buf.text(), "cdef");
    assert!(app.cmdbuf.is_empty());
}

#[test]
fn app_x_on_empty_text_gives_up() {
    let mut app = App::new("f.txt".to_string(), "");
    assert_eq!(app.handle_key_events(key('x')), Err(Fault::GaveUp));
}

#[test]
fn app_movement_keys_go_through_events() {
    let mut app = App::new("f.txt".to_string(), "abc def\nxyz");
    app.handle_key_events(key('l')).unwrap();
    assert_eq!(app.events, vec![AppEvent::Movement]);
    drain(&mut app);
    assert_eq!(app.buf.current_char(), 'b');
    app.handle_key_events(key('j')).unwrap();
    drain(&mut app);
    assert_eq!(app.buf.current_char(), 'y');
    app.handle_key_events(key('0')).unwrap();
    drain(&mut app);
    assert_eq!(app.buf.current_char(), 'x');
    app.handle_key_events(key('k')).unwrap();
    drain(&mut app);
    assert_eq!(app.buf.current_char(), 'a');
}

#[test]
fn app_w_command_moves_by_words() {
    let mut app = App::new("f.txt".to_string(), "one two three");
    app.handle_key_events(key('2')).unwrap();
    app.handle_key_events(key('w')).unwrap();
    assert!(app.cmdbuf.is_empty());
    assert_eq!(app.buf.current_char(), 't');
    assert_eq!(app.buf.current_position().col, 8);
}

#[test]
fn app_diw_deletes_word_and_records_change() {
    let mut app = App::new("f.txt".to_string(), "the cat sat");
    app.buf.position(0, 5);
    app.handle_key_events(key('d')).unwrap();
    app.handle_key_events(key('i')).unwrap();
    app.handle_key_events(key('w')).unwrap();
    assert_eq!(app.buf.text(), "the sat");
    assert!(app.cmdbuf.is_empty());
    app.buf.undo();
    assert_eq!(app.buf.text(), "the cat sat");
}

#[test]
fn app_ciw_deletes_and_enters_insert_mode() {
    let mut app = App::new("f.txt".to_string(), "the cat sat");
    app.buf.position(0, 5);
    app.handle_key_events(key('c')).unwrap();
    app.handle_key_events(key('i')).unwrap();
    app.handle_key_events(key('w')).unwrap();
    assert_eq!(app.buf.text(), "the  sat");
    drain(&mut app);
    assert_eq!(app.mode, Mode::Insert);
}

#[test]
fn app_unknown_keys_are_cleared() {
    let mut app = App::new("f.txt".to_string(), "abc");
    app.handle_key_events(key('z')).unwrap();
    assert!(app.cmdbuf.is_empty());
    app.handle_key_events(key('d')).unwrap();
    assert_eq!(app.cmdbuf.text(), "d");
    app.handle_key_events(plain(Key::Esc)).unwrap();
    assert!(app.cmdbuf.is_empty());
}

#[test]
fn app_ex_command_write_and_quit() {
    let mut app = App::new("notes.md".to_string(), "abc");
    app.handle_key_events(key(':')).unwrap();
    drain(&mut app);
    assert_eq!(app.mode, Mode::ExCommand);
    app.handle_key_events(key('w')).unwrap();
    app.handle_key_events(key('q')).unwrap();
    app.handle_key_events(plain(Key::Enter)).unwrap();
    let requests = drain(&mut app);
    assert_eq!(requests, vec![Request::Nothing, Request::WriteFile, Request::Nothing, Request::Nothing]);
    assert!(!app.running);
    assert_eq!(app.mode, Mode::Normal);
}

#[test]
fn app_ex_command_write_sets_message() {
    let mut app = App::new("notes.md".to_string(), "abc");
    app.handle_key_events(key(':')).unwrap();
    drain(&mut app);
    app.handle_key_events(key('w')).unwrap();
    app.handle_key_events(plain(Key::Enter)).unwrap();
    drain(&mut app);
    assert_eq!(app.msg, Some("Wrote to file notes.md".to_string()));
}

#[test]
fn app_open_line_below() {
    let mut app = App::new("f.txt".to_string(), "ab\ncd");
    app.handle_key_events(key('o')).unwrap();
    drain(&mut app);
    assert_eq!(app.buf.text(), "a\nb\ncd");
    assert_eq!(app.mode, Mode::Insert);
}

#[test]
fn app_dollar_goes_to_line_end() {
    let mut app = App::new("f.txt".to_string(), "abcd\nef");
    app.handle_key_events(key('$')).unwrap();
    assert_eq!(app.buf.current_char(), 'd');
}

#[test]
fn app_writing_into_empty_file_gives_up() {
    let mut app = App::new("f.txt".to_string(), "");
    assert_eq!(app.handle_event(AppEvent::Write('a')), Err(Fault::GaveUp));
}

#[test]
fn app_leaving_insert_mode_steps_left() {
    let mut app = App::new("f.txt".to_string(), "abc");
    app.buf.position(0, 2);
    app.handle_event(AppEvent::ModeChange(Mode::Insert)).unwrap();
    app.handle_event(AppEvent::ModeChange(Mode::Normal)).unwrap();
    assert_eq!(app.buf.current_char(), 'b');
}
