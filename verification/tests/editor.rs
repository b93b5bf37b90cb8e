use lib::editor::{clear_line, decode_key, prompt, Key, LineEditor, Step, LINE_MAX};
use lib::keymap::latin_to_cyrillic;

const LEFT: &[u8] = b"\x1B[D";

fn lefts(n: usize) -> Vec<u8> {
    LEFT.repeat(n)
}

fn type_bytes(e: &mut LineEditor, bytes: &[u8]) -> Vec<u8> {
    let mut echo = Vec::new();
    let mut i = 0;
    while i < bytes.len() {
        let (key, n) = decode_key(bytes, i);
        let (_, out) = e.step(key);
        echo.extend(out);
        i += n;
    }
    echo
}

#[test]
fn decodes_keys() {
    assert_eq!(decode_key(b"\x1B[A", 0), (Key::Up, 3));
    assert_eq!(decode_key(b"\x1B[B", 0), (Key::Down, 3));
    assert_eq!(decode_key(b"\x1B[C", 0), (Key::Right, 3));
    assert_eq!(decode_key(b"\x1B[D", 0), (Key::Left, 3));
    assert_eq!(decode_key(b"\x1B[Z", 0), (Key::Ignore, 1));
    assert_eq!(decode_key(b"\x1B[", 0), (Key::Ignore, 1));
    assert_eq!(decode_key(b"\r", 0), (Key::Enter, 1));
    assert_eq!(decode_key(b"\n", 0), (Key::Enter, 1));
    assert_eq!(decode_key(b"\x7F", 0), (Key::Backspace, 1));
    assert_eq!(decode_key(b"\x08", 0), (Key::Backspace, 1));
    assert_eq!(decode_key(b"\t", 0), (Key::Tab, 1));
    assert_eq!(decode_key(b"\x03", 0), (Key::Interrupt, 1));
    assert_eq!(decode_key(b"\x04", 0), (Key::EndOfInput, 1));
    assert_eq!(decode_key(b"a", 0), (Key::Insert(b'a'), 1));
    assert_eq!(decode_key(b"~", 0), (Key::Insert(b'~'), 1));
    assert_eq!(decode_key(b"\x7E\x01", 1), (Key::Ignore, 1));
    assert_eq!(decode_key(&[0xD0, 0xB9], 1), (Key::Insert(0xB9), 1));
}

#[test]
fn typing_appends_and_echoes() {
    let mut e = LineEditor::new();
    let echo = type_bytes(&mut e, b"ls");
    assert_eq!(e.line(), &b"ls".to_vec());
    assert_eq!(e.cursor(), 2);
    assert_eq!(echo, b"ls".to_vec());
}

#[test]
fn insert_in_middle_redraws_tail() {
    let mut e = LineEditor::new();
    type_bytes(&mut e, b"ac");
    assert_eq!(e.move_left(), LEFT.to_vec());
    let out = e.insert(b'b');
    assert_eq!(e.line(), &b"abc".to_vec());
    assert_eq!(e.cursor(), 2);
    let mut expected = b"bc".to_vec();
    expected.extend(lefts(1));
    assert_eq!(out, expected);
}

#[test]
fn backspace_undoes_insert() {
    let mut e = LineEditor::new();
    type_bytes(&mut e, b"abcd");
    e.move_left();
    e.move_left();
    let before = e.line().clone();
    let cur = e.cursor();
    e.insert(b'X');
    let out = e.backspace();
    assert_eq!(e.line(), &before);
    assert_eq!(e.cursor(), cur);
    let mut expected = LEFT.to_vec();
    expected.extend(b"cd ");
    expected.extend(lefts(3));
    assert_eq!(out, expected);
}

#[test]
fn backspace_at_start_does_nothing() {
    let mut e = LineEditor::new();
    assert_eq!(e.backspace(), Vec::<u8>::new());
    assert_eq!(e.cursor(), 0);
    assert_eq!(e.move_left(), Vec::<u8>::new());
    assert_eq!(e.move_right(), Vec::<u8>::new());
}

#[test]
fn moves_undo_each_other() {
    let mut e = LineEditor::new();
    type_bytes(&mut e, b"xyz");
    e.move_left();
    assert_eq!(e.cursor(), 2);
    assert_eq!(e.move_right(), b"\x1B[C".to_vec());
    assert_eq!(e.cursor(), 3);
}

#[test]
fn line_stops_growing_when_full() {
    let mut e = LineEditor::new();
    for _ in 0..(LINE_MAX + 10) {
        e.insert(b'a');
    }
    assert_eq!(e.line().len(), LINE_MAX - 1);
    assert_eq!(e.insert(b'b'), Vec::<u8>::new());
}

#[test]
fn cyrillic_bytes_round_trip() {
    let mut e = LineEditor::new();
    let (a, b) = latin_to_cyrillic(b'q');
    let echo = type_bytes(&mut e, &[a, b]);
    assert_eq!(e.line(), &vec![a, b]);
    assert_eq!(echo, vec![a, b]);
    assert_eq!(std::str::from_utf8(e.line()).unwrap(), "\u{0439}");
}

#[test]
fn enter_interrupt_and_end_of_input() {
    let mut e = LineEditor::new();
    assert_eq!(e.step(Key::EndOfInput), (Step::Exit, b"exit\r\n".to_vec()));
    type_bytes(&mut e, b"a");
    assert_eq!(e.step(Key::EndOfInput), (Step::Continue, Vec::new()));
    assert_eq!(e.step(Key::Enter), (Step::Submit, b"\r\n".to_vec()));
    assert_eq!(e.step(Key::Interrupt), (Step::Submit, b"^C\r\n".to_vec()));
    assert_eq!(e.line(), &b"a".to_vec());
}

#[test]
fn history_and_completion_requests_leave_line() {
    let mut e = LineEditor::new();
    type_bytes(&mut e, b"ab");
    assert_eq!(e.step(Key::Up), (Step::HistoryUp, Vec::new()));
    assert_eq!(e.step(Key::Down), (Step::HistoryDown, Vec::new()));
    assert_eq!(e.step(Key::Tab), (Step::Complete, Vec::new()));
    assert_eq!(e.step(Key::Ignore), (Step::Continue, Vec::new()));
    assert_eq!(e.line(), &b"ab".to_vec());
}

#[test]
fn clear_line_output() {
    assert_eq!(prompt(), b"osh> ".to_vec());
    assert_eq!(clear_line(b"ab"), b"\r       \rosh> ".to_vec());
}

#[test]
fn replace_and_clear() {
    let mut e = LineEditor::new();
    type_bytes(&mut e, b"x");
    let out = e.replace(b"ls -l");
    let mut expected = clear_line(b"x");
    expected.extend(b"ls -l");
    assert_eq!(out, expected);
    assert_eq!(e.line(), &b"ls -l".to_vec());
    assert_eq!(e.cursor(), 5);
    let out = e.clear();
    assert_eq!(out, clear_line(b"ls -l"));
    assert_eq!(e.line().len(), 0);
    assert_eq!(e.cursor(), 0);
}

#[test]
fn replace_cuts_long_entry() {
    let mut e = LineEditor::new();
    let long = vec![b'q'; LINE_MAX * 2];
    e.replace(&long);
    assert_eq!(e.line().len(), LINE_MAX - 1);
    assert_eq!(e.cursor(), LINE_MAX - 1);
}

#[test]
fn completion_places_cursor() {
    let mut e = LineEditor::new();
    type_bytes(&mut e, b"ec");
    let out = e.complete(b"echo  x", 5, true);
    assert_eq!(e.line(), &b"echo  x".to_vec());
    assert_eq!(e.cursor(), 5);
    let mut expected = clear_line(b"ec");
    expected.extend(prompt());
    expected.extend(b"echo  x");
    expected.extend(lefts(2));
    assert_eq!(out, expected);
    let out = e.complete(b"ab", 9, false);
    assert_eq!(e.cursor(), 2);
    let mut expected = clear_line(b"echo  x");
    expected.extend(b"ab");
    assert_eq!(out, expected);
}

#[test]
fn history_answers() {
    let mut e = LineEditor::new();
    type_bytes(&mut e, b"ab");
    assert_eq!(e.apply_history(false, None), Vec::<u8>::new());
    assert_eq!(e.line(), &b"ab".to_vec());
    let out = e.apply_history(false, Some(&b"make"[..]));
    let mut expected = clear_line(b"ab");
    expected.extend(b"make");
    assert_eq!(out, expected);
    assert_eq!(e.line(), &b"make".to_vec());
    assert_eq!(e.cursor(), 4);
    let out = e.apply_history(true, None);
    assert_eq!(out, clear_line(b"make"));
    assert_eq!(e.line().len(), 0);
    e.apply_history(true, Some(&b"ls"[..]));
    assert_eq!(e.line(), &b"ls".to_vec());
    e.check_wf();
}

#[test]
fn empty_line_is_not_submitted() {
    let mut e = LineEditor::new();
    assert_eq!(e.submitted_line(), None);
    type_bytes(&mut e, b"pwd");
    assert_eq!(e.submitted_line(), Some(b"pwd".to_vec()));
    e.backspace();
    e.backspace();
    e.backspace();
    assert_eq!(e.submitted_line(), None);
}
