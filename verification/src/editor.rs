//! The raw-mode line editor: turns the bytes a terminal sends into edits of
//! the line being typed, and into the bytes to echo back.
use vstd::prelude::*;
use crate::keymap::{cyrillic_bytes, cyrillic_letter};

verus! {

/// Capacity of the line buffer; a line holds at most `LINE_MAX - 1` bytes.
pub const LINE_MAX: usize = 256;

pub const ESC: u8 = 0x1B;
pub const CSI: u8 = 0x5B;
pub const SPACE: u8 = 0x20;
pub const CR: u8 = 0x0D;
pub const LF: u8 = 0x0A;

/// What one key press, or one escape sequence, asks of the editor.
#[derive(PartialEq, Eq, Structural, Clone, Copy, Debug)]
pub enum Key {
    Up,
    Down,
    Right,
    Left,
    Enter,
    Backspace,
    Tab,
    Interrupt,
    EndOfInput,
    Insert(u8),
    Ignore,
}

/// A byte that goes into the line as typed: printable ASCII, or any byte of
/// a multi-byte UTF-8 sequence (0x80 and above).
pub open spec fn is_insertable(b: u8) -> bool {
    (0x20 <= b < 0x7F) || b >= 0x80
}

/// The key that starts at `buf[i]` and how many bytes it takes.
pub open spec fn spec_decode_key(buf: Seq<u8>, i: int) -> (Key, int) {
    let b = buf[i];
    if b == ESC && i + 2 < buf.len() && buf[i + 1] == CSI && 0x41 <= buf[i + 2] <= 0x44 {
        let k = buf[i + 2];
        if k == 0x41 {
            (Key::Up, 3)
        } else if k == 0x42 {
            (Key::Down, 3)
        } else if k == 0x43 {
            (Key::Right, 3)
        } else {
            (Key::Left, 3)
        }
    } else if b == CR || b == LF {
        (Key::Enter, 1)
    } else if b == 0x7F || b == 0x08 {
        (Key::Backspace, 1)
    } else if b == 0x09 {
        (Key::Tab, 1)
    } else if b == 0x03 {
        (Key::Interrupt, 1)
    } else if b == 0x04 {
        (Key::EndOfInput, 1)
    } else if is_insertable(b) {
        (Key::Insert(b), 1)
    } else {
        (Key::Ignore, 1)
    }
}

/// Decode the key that starts at `buf[i]`; returns it with the number of
/// bytes it takes (3 for an arrow escape sequence, else 1).
pub fn decode_key(buf: &[u8], i: usize) -> (r: (Key, usize))
    requires
        i < buf@.len(),
    ensures
        (r.0, r.1 as int) == spec_decode_key(buf@, i as int),
{
    let b = buf[i];
    if b == ESC && buf.len() - i > 2 && buf[i + 1] == CSI && 0x41 <= buf[i + 2] && buf[i + 2] <= 0x44 {
        let k = buf[i + 2];
        if k == 0x41 {
            (Key::Up, 3)
        } else if k == 0x42 {
            (Key::Down, 3)
        } else if k == 0x43 {
            (Key::Right, 3)
        } else {
            (Key::Left, 3)
        }
    } else if b == CR || b == LF {
        (Key::Enter, 1)
    } else if b == 0x7F || b == 0x08 {
        (Key::Backspace, 1)
    } else if b == 0x09 {
        (Key::Tab, 1)
    } else if b == 0x03 {
        (Key::Interrupt, 1)
    } else if b == 0x04 {
        (Key::EndOfInput, 1)
    } else if (0x20 <= b && b < 0x7F) || b >= 0x80 {
        (Key::Insert(b), 1)
    } else {
        (Key::Ignore, 1)
    }
}


/// `n` copies of `pat`, one after the other.
pub open spec fn repeat(pat: Seq<u8>, n: nat) -> Seq<u8>
    decreases n,
{
    if n == 0 {
        seq![]
    } else {
        repeat(pat, (n - 1) as nat) + pat
    }
}

/// The escape sequence that moves the terminal cursor one column left.
pub open spec fn cursor_left() -> Seq<u8> {
    seq![ESC, CSI, 0x44u8]
}

/// The escape sequence that moves the terminal cursor one column right.
pub open spec fn cursor_right() -> Seq<u8> {
    seq![ESC, CSI, 0x43u8]
}

/// The prompt, `osh> `.
pub open spec fn spec_prompt() -> Seq<u8> {
    seq![0x6Fu8, 0x73u8, 0x68u8, 0x3Eu8, 0x20u8]
}

/// The prompt that the shell prints before each line.
pub fn prompt() -> (r: Vec<u8>)
    ensures
        r@ == spec_prompt(),
{
    let mut r: Vec<u8> = Vec::new();
    r.push(0x6F);
    r.push(0x73);
    r.push(0x68);
    r.push(0x3E);
    r.push(0x20);
    assert(r@ =~= spec_prompt());
    r
}

/// Append `n` copies of `pat` to `out`.
fn push_repeat(out: &mut Vec<u8>, pat: &Vec<u8>, n: usize)
    ensures
        final(out)@ == old(out)@ + repeat(pat@, n as nat),
{
    let ghost start = out@;
    let mut k: usize = 0;
    assert(start + repeat(pat@, 0) =~= start);
    while k < n
        invariant
            k <= n,
            out@ == start + repeat(pat@, k as nat),
        decreases n - k,
    {
        let mut j: usize = 0;
        let ghost before = out@;
        while j < pat.len()
            invariant
                j <= pat@.len(),
                out@ == before + pat@.subrange(0, j as int),
            decreases pat@.len() - j,
        {
            out.push(pat[j]);
            j += 1;
            assert(out@ =~= before + pat@.subrange(0, j as int));
        }
        k += 1;
        assert(pat@.subrange(0, pat@.len() as int) =~= pat@);
        assert(out@ =~= start + repeat(pat@, k as nat));
    }
}

/// Append all of `src` to `out`.
fn push_all(out: &mut Vec<u8>, src: &[u8])
    ensures
        final(out)@ == old(out)@ + src@,
{
    let ghost start = out@;
    let mut j: usize = 0;
    while j < src.len()
        invariant
            j <= src@.len(),
            out@ == start + src@.subrange(0, j as int),
        decreases src@.len() - j,
    {
        out.push(src[j]);
        j += 1;
        assert(out@ =~= start + src@.subrange(0, j as int));
    }
    assert(src@.subrange(0, src@.len() as int) =~= src@);
}

fn left_seq() -> (r: Vec<u8>)
    ensures
        r@ == cursor_left(),
{
    let mut r: Vec<u8> = Vec::new();
    r.push(ESC);
    r.push(CSI);
    r.push(0x44);
    assert(r@ =~= cursor_left());
    r
}

/// What the editor shows the user: the line typed so far and the cursor's
/// position in it.
pub struct EditorView {
    pub text: Seq<u8>,
    pub cursor: int,
}

/// The cursor lies within the line, and the line leaves room for its
/// terminating byte in a `LINE_MAX` buffer.
pub open spec fn editor_wf(v: EditorView) -> bool {
    0 <= v.cursor <= v.text.len() && v.text.len() < LINE_MAX
}

/// Erase the prompt and a line of `len` bytes from the terminal, and print
/// the prompt again.
pub open spec fn spec_clear_line(len: nat) -> Seq<u8> {
    seq![CR] + repeat(seq![SPACE], spec_prompt().len() + len) + seq![CR] + spec_prompt()
}

pub open spec fn spec_insert(v: EditorView, c: u8) -> EditorView {
    if v.text.len() < LINE_MAX - 1 {
        EditorView { text: v.text.insert(v.cursor, c), cursor: v.cursor + 1 }
    } else {
        v
    }
}

/// Echo of an insertion: the line from the new byte on, then the cursor
/// moved back to just after the new byte.
pub open spec fn insert_echo(v: EditorView, c: u8) -> Seq<u8> {
    if v.text.len() < LINE_MAX - 1 {
        let w = spec_insert(v, c);
        w.text.subrange(v.cursor, w.text.len() as int) + repeat(
            cursor_left(),
            (w.text.len() - w.cursor) as nat,
        )
    } else {
        seq![]
    }
}

pub open spec fn spec_backspace(v: EditorView) -> EditorView {
    if v.cursor > 0 {
        EditorView { text: v.text.remove(v.cursor - 1), cursor: v.cursor - 1 }
    } else {
        v
    }
}

/// Echo of a deletion: one column left, the rest of the line, a blank over
/// the last column, and the cursor moved back to where the byte was.
pub open spec fn backspace_echo(v: EditorView) -> Seq<u8> {
    if v.cursor > 0 {
        let w = spec_backspace(v);
        cursor_left() + w.text.subrange(w.cursor, w.text.len() as int) + seq![SPACE] + repeat(
            cursor_left(),
            (w.text.len() - w.cursor + 1) as nat,
        )
    } else {
        seq![]
    }
}

pub open spec fn spec_move_left(v: EditorView) -> EditorView {
    if v.cursor > 0 {
        EditorView { text: v.text, cursor: v.cursor - 1 }
    } else {
        v
    }
}

pub open spec fn spec_move_right(v: EditorView) -> EditorView {
    if v.cursor < v.text.len() {
        EditorView { text: v.text, cursor: v.cursor + 1 }
    } else {
        v
    }
}

/// Longest prefix of `line` that fits in the buffer.
pub open spec fn fit(line: Seq<u8>) -> Seq<u8> {
    if line.len() < LINE_MAX - 1 {
        line
    } else {
        line.subrange(0, LINE_MAX - 1)
    }
}

/// The line that a history entry, or a completion, puts in place.
pub open spec fn spec_replace(entry: Seq<u8>) -> EditorView {
    EditorView { text: fit(entry), cursor: fit(entry).len() as int }
}

/// The line after completion: the completed text, with the cursor where
/// the completion puts it but never past the end.
pub open spec fn spec_complete(new_line: Seq<u8>, new_cursor: usize) -> EditorView {
    let t = fit(new_line);
    EditorView {
        text: t,
        cursor: if new_cursor < t.len() { new_cursor as int } else { t.len() as int },
    }
}

pub open spec fn complete_echo(v: EditorView, new_line: Seq<u8>, new_cursor: usize, printed: bool) -> Seq<u8> {
    let w = spec_complete(new_line, new_cursor);
    spec_clear_line(v.text.len()) + (if printed { spec_prompt() } else { seq![] }) + w.text + repeat(
        cursor_left(),
        (w.text.len() - w.cursor) as nat,
    )
}

/// What the shell does after a key: read on, take the line, ask for help
/// from the history or the completer, or leave.
#[derive(PartialEq, Eq, Structural, Clone, Copy, Debug)]
pub enum Step {
    Continue,
    Submit,
    Exit,
    HistoryUp,
    HistoryDown,
    Complete,
}

/// The state, step and echo that a key leads to.
pub open spec fn spec_step(v: EditorView, key: Key) -> (EditorView, Step, Seq<u8>) {
    match key {
        Key::Up => (v, Step::HistoryUp, seq![]),
        Key::Down => (v, Step::HistoryDown, seq![]),
        Key::Tab => (v, Step::Complete, seq![]),
        Key::Right => (
            spec_move_right(v),
            Step::Continue,
            if v.cursor < v.text.len() { cursor_right() } else { seq![] },
        ),
        Key::Left => (
            spec_move_left(v),
            Step::Continue,
            if v.cursor > 0 { cursor_left() } else { seq![] },
        ),
        Key::Enter => (v, Step::Submit, seq![CR, LF]),
        Key::Interrupt => (v, Step::Submit, seq![0x5Eu8, 0x43u8, CR, LF]),
        Key::EndOfInput => if v.text.len() == 0 {
            (v, Step::Exit, seq![0x65u8, 0x78u8, 0x69u8, 0x74u8, CR, LF])
        } else {
            (v, Step::Continue, seq![])
        },
        Key::Backspace => (spec_backspace(v), Step::Continue, backspace_echo(v)),
        Key::Insert(c) => (spec_insert(v, c), Step::Continue, insert_echo(v, c)),
        Key::Ignore => (v, Step::Continue, seq![]),
    }
}

/// The line being typed at the prompt, with its cursor.
pub struct LineEditor {
    line: Vec<u8>,
    cursor: usize,
}

impl View for LineEditor {
    type V = EditorView;

    closed spec fn view(&self) -> EditorView {
        EditorView { text: self.line@, cursor: self.cursor as int }
    }
}

impl LineEditor {
    /// The cursor lies within the line, and the line is shorter than `LINE_MAX`.
    #[verifier::type_invariant]
    spec fn inv(&self) -> bool {
        self.cursor <= self.line@.len() && self.line@.len() < LINE_MAX
    }

    /// Every editor is well formed.
    pub fn check_wf(&self)
        ensures
            editor_wf(self@),
    {
        proof {
            use_type_invariant(self);
        }
    }

    /// Move the line out, leaving an empty one.
    fn take_line(&mut self) -> (line: Vec<u8>)
        ensures
            line@ == old(self)@.text,
            final(self)@ == (EditorView { text: seq![], cursor: 0 }),
    {
        proof {
            use_type_invariant(&*self);
        }
        self.cursor = 0;
        let mut line: Vec<u8> = Vec::new();
        std::mem::swap(&mut line, &mut self.line);
        line
    }

    /// An empty line.
    pub fn new() -> (e: LineEditor)
        ensures
            e@ == (EditorView { text: seq![], cursor: 0 }),
            editor_wf(e@),
    {
        LineEditor { line: Vec::new(), cursor: 0 }
    }

    /// The bytes of the line.
    pub fn line(&self) -> (r: &Vec<u8>)
        ensures
            r@ == self@.text,
    {
        &self.line
    }

    /// The cursor's position in the line.
    pub fn cursor(&self) -> (r: usize)
        ensures
            r == self@.cursor,
    {
        self.cursor
    }

    /// Insert a byte at the cursor, unless the line is full; returns the echo.
    pub fn insert(&mut self, c: u8) -> (out: Vec<u8>)
        ensures
            final(self)@ == spec_insert(old(self)@, c),
            out@ == insert_echo(old(self)@, c),
            editor_wf(final(self)@),
    {
        proof {
            use_type_invariant(&*self);
        }
        let mut out: Vec<u8> = Vec::new();
        if self.line.len() < LINE_MAX - 1 {
            let cur = self.cursor;
            let mut line = self.take_line();
            line.insert(cur, c);
            let mut j = cur;
            while j < line.len()
                invariant
                    cur <= j <= line@.len(),
                    out@ == line@.subrange(cur as int, j as int),
                decreases line@.len() - j,
            {
                out.push(line[j]);
                j += 1;
                assert(out@ =~= line@.subrange(cur as int, j as int));
            }
            let left = left_seq();
            push_repeat(&mut out, &left, line.len() - (cur + 1));
            self.line = line;
            self.cursor = cur + 1;
        }
        proof {
            use_type_invariant(&*self);
        }
        out
    }

    /// Delete the byte before the cursor, if any; returns the echo.
    pub fn backspace(&mut self) -> (out: Vec<u8>)
        ensures
            final(self)@ == spec_backspace(old(self)@),
            out@ == backspace_echo(old(self)@),
            editor_wf(final(self)@),
    {
        proof {
            use_type_invariant(&*self);
        }
        let mut out: Vec<u8> = Vec::new();
        if self.cursor > 0 {
            let cur = self.cursor - 1;
            let mut line = self.take_line();
            line.remove(cur);
            let left = left_seq();
            push_all(&mut out, left.as_slice());
            let ghost start = out@;
            let mut j = cur;
            while j < line.len()
                invariant
                    cur <= j <= line@.len(),
                    out@ == start + line@.subrange(cur as int, j as int),
                decreases line@.len() - j,
            {
                out.push(line[j]);
                j += 1;
                assert(out@ =~= start + line@.subrange(cur as int, j as int));
            }
            out.push(SPACE);
            push_repeat(&mut out, &left, line.len() - cur + 1);
            self.line = line;
            self.cursor = cur;
        }
        proof {
            use_type_invariant(&*self);
        }
        out
    }

    /// Move the cursor one byte left, if it can; returns the echo.
    pub fn move_left(&mut self) -> (out: Vec<u8>)
        ensures
            final(self)@ == spec_move_left(old(self)@),
            out@ == (if old(self)@.cursor > 0 { cursor_left() } else { seq![] }),
            editor_wf(final(self)@),
    {
        proof {
            use_type_invariant(&*self);
        }
        if self.cursor > 0 {
            self.cursor = self.cursor - 1;
            left_seq()
        } else {
            Vec::new()
        }
    }

    /// Move the cursor one byte right, if it can; returns the echo.
    pub fn move_right(&mut self) -> (out: Vec<u8>)
        ensures
            final(self)@ == spec_move_right(old(self)@),
            out@ == (if old(self)@.cursor < old(self)@.text.len() { cursor_right() } else { seq![] }),
            editor_wf(final(self)@),
    {
        proof {
            use_type_invariant(&*self);
        }
        if self.cursor < self.line.len() {
            self.cursor = self.cursor + 1;
            let mut r: Vec<u8> = Vec::new();
            r.push(ESC);
            r.push(CSI);
            r.push(0x43);
            assert(r@ =~= cursor_right());
            r
        } else {
            Vec::new()
        }
    }
}


/// The bytes that erase the prompt and `line` from the terminal and print
/// the prompt again.
pub fn clear_line(line: &[u8]) -> (out: Vec<u8>)
    requires
        line@.len() + spec_prompt().len() <= usize::MAX,
    ensures
        out@ == spec_clear_line(line@.len()),
{
    let p = prompt();
    let mut out: Vec<u8> = Vec::new();
    out.push(CR);
    let mut space: Vec<u8> = Vec::new();
    space.push(SPACE);
    assert(space@ =~= seq![SPACE]);
    push_repeat(&mut out, &space, p.len() + line.len());
    out.push(CR);
    push_all(&mut out, p.as_slice());
    assert(out@ =~= spec_clear_line(line@.len()));
    out
}

/// Append the longest prefix of `src` that fits in the buffer.
fn push_fit(out: &mut Vec<u8>, src: &[u8]) -> (n: usize)
    ensures
        final(out)@ == old(out)@ + fit(src@),
        n == fit(src@).len(),
{
    let n = if src.len() < LINE_MAX - 1 { src.len() } else { LINE_MAX - 1 };
    let ghost start = out@;
    let mut j: usize = 0;
    while j < n
        invariant
            n <= src@.len(),
            j <= n,
            out@ == start + src@.subrange(0, j as int),
        decreases n - j,
    {
        out.push(src[j]);
        j += 1;
        assert(out@ =~= start + src@.subrange(0, j as int));
    }
    assert(src@.subrange(0, n as int) =~= fit(src@));
    n
}

impl LineEditor {
    /// Put `entry` (a history entry) in place of the line, cut to fit, with
    /// the cursor at its end; returns the echo.
    pub fn replace(&mut self, entry: &[u8]) -> (out: Vec<u8>)
        ensures
            final(self)@ == spec_replace(entry@),
            out@ == spec_clear_line(old(self)@.text.len()) + fit(entry@),
            editor_wf(final(self)@),
    {
        proof {
            use_type_invariant(&*self);
        }
        let mut out = clear_line(self.line.as_slice());
        let mut line: Vec<u8> = Vec::new();
        let n = push_fit(&mut line, entry);
        push_all(&mut out, line.as_slice());
        assert(line@ =~= fit(entry@));
        self.cursor = 0;
        self.line = line;
        self.cursor = n;
        out
    }

    /// Empty the line; returns the echo.
    pub fn clear(&mut self) -> (out: Vec<u8>)
        ensures
            final(self)@ == (EditorView { text: seq![], cursor: 0 }),
            out@ == spec_clear_line(old(self)@.text.len()),
            editor_wf(final(self)@),
    {
        proof {
            use_type_invariant(&*self);
        }
        let out = clear_line(self.line.as_slice());
        self.cursor = 0;
        self.line = Vec::new();
        out
    }

    /// Put a completion in place of the line: `new_line`, cut to fit, with
    /// the cursor at `new_cursor` or at the end, whichever comes first.
    /// `printed` says whether the completer printed a list of candidates,
    /// after which the prompt is printed again. Returns the echo.
    pub fn complete(&mut self, new_line: &[u8], new_cursor: usize, printed: bool) -> (out: Vec<u8>)
        ensures
            final(self)@ == spec_complete(new_line@, new_cursor),
            out@ == complete_echo(old(self)@, new_line@, new_cursor, printed),
            editor_wf(final(self)@),
    {
        proof {
            use_type_invariant(&*self);
        }
        let mut out = clear_line(self.line.as_slice());
        let ghost cleared = out@;
        if printed {
            let p = prompt();
            push_all(&mut out, p.as_slice());
        }
        let ghost with_prompt = out@;
        let mut line: Vec<u8> = Vec::new();
        let n = push_fit(&mut line, new_line);
        push_all(&mut out, line.as_slice());
        let cursor = if new_cursor < n { new_cursor } else { n };
        let left = left_seq();
        push_repeat(&mut out, &left, n - cursor);
        self.cursor = 0;
        self.line = line;
        self.cursor = cursor;
        proof {
            let w = spec_complete(new_line@, new_cursor);
            assert(with_prompt == cleared + (if printed { spec_prompt() } else { seq![] }));
            assert(out@ =~= cleared + (if printed { spec_prompt() } else { seq![] }) + w.text
                + repeat(cursor_left(), (w.text.len() - w.cursor) as nat));
        }
        out
    }

    /// Act on one key: edit the line and return what comes next together
    /// with the echo. Up, Down and Tab leave the line as it is and ask the
    /// caller for a history entry or a completion.
    pub fn step(&mut self, key: Key) -> (r: (Step, Vec<u8>))
        ensures
            (final(self)@, r.0, r.1@) == spec_step(old(self)@, key),
            editor_wf(final(self)@),
    {
        proof {
            use_type_invariant(&*self);
        }
        match key {
            Key::Up => (Step::HistoryUp, Vec::new()),
            Key::Down => (Step::HistoryDown, Vec::new()),
            Key::Tab => (Step::Complete, Vec::new()),
            Key::Right => (Step::Continue, self.move_right()),
            Key::Left => (Step::Continue, self.move_left()),
            Key::Enter => {
                let mut out: Vec<u8> = Vec::new();
                out.push(CR);
                out.push(LF);
                assert(out@ =~= seq![CR, LF]);
                (Step::Submit, out)
            },
            Key::Interrupt => {
                let mut out: Vec<u8> = Vec::new();
                out.push(0x5E);
                out.push(0x43);
                out.push(CR);
                out.push(LF);
                assert(out@ =~= seq![0x5Eu8, 0x43u8, CR, LF]);
                (Step::Submit, out)
            },
            Key::EndOfInput => {
                if self.line.len() == 0 {
                    let mut out: Vec<u8> = Vec::new();
                    out.push(0x65);
                    out.push(0x78);
                    out.push(0x69);
                    out.push(0x74);
                    out.push(CR);
                    out.push(LF);
                    assert(out@ =~= seq![0x65u8, 0x78u8, 0x69u8, 0x74u8, CR, LF]);
                    (Step::Exit, out)
                } else {
                    (Step::Continue, Vec::new())
                }
            },
            Key::Backspace => (Step::Continue, self.backspace()),
            Key::Insert(c) => (Step::Continue, self.insert(c)),
            Key::Ignore => (Step::Continue, Vec::new()),
        }
    }
}


/// The contents of a history answer.
pub open spec fn entry_view(entry: Option<&[u8]>) -> Option<Seq<u8>> {
    match entry {
        Some(e) => Some(e@),
        None => None,
    }
}

/// The line and echo after the history answered an Up (`down` false) or a
/// Down (`down` true) key: an entry takes the place of the line; no entry
/// leaves the line alone after Up, and empties it after Down.
pub open spec fn spec_apply_history(v: EditorView, down: bool, entry: Option<Seq<u8>>) -> (
    EditorView,
    Seq<u8>,
) {
    match entry {
        Some(e) => (spec_replace(e), spec_clear_line(v.text.len()) + fit(e)),
        None => if down {
            (EditorView { text: seq![], cursor: 0 }, spec_clear_line(v.text.len()))
        } else {
            (v, seq![])
        },
    }
}

impl LineEditor {
    /// Act on the history's answer to Up (`down` false) or Down (`down`
    /// true); returns the echo.
    pub fn apply_history(&mut self, down: bool, entry: Option<&[u8]>) -> (out: Vec<u8>)
        ensures
            (final(self)@, out@) == spec_apply_history(old(self)@, down, entry_view(entry)),
            editor_wf(final(self)@),
    {
        proof {
            use_type_invariant(&*self);
        }
        match entry {
            Some(e) => self.replace(e),
            None => {
                if down {
                    self.clear()
                } else {
                    Vec::new()
                }
            },
        }
    }

    /// The line to run once it is submitted: `None` for an empty line,
    /// which the shell skips.
    pub fn submitted_line(&self) -> (r: Option<Vec<u8>>)
        ensures
            match r {
                Some(l) => self@.text.len() > 0 && l@ == self@.text,
                None => self@.text.len() == 0,
            },
    {
        if self.line.len() == 0 {
            None
        } else {
            Some(self.line.clone())
        }
    }
}



/// `repeat` is `n` copies of the pattern: none for 0, and one more copy in
/// front for `n + 1`.
pub proof fn lemma_repeat_copies(p: Seq<u8>, n: nat)
    ensures
        repeat(p, 0) == Seq::<u8>::empty(),
        repeat(p, n + 1) == p + repeat(p, n),
        repeat(p, n).len() == n * p.len(),
    decreases n,
{
    assert(repeat(p, 0) =~= Seq::<u8>::empty());
    if n == 0 {
        assert(repeat(p, 1) =~= p + repeat(p, 0));
    } else {
        lemma_repeat_copies(p, (n - 1) as nat);
        assert(repeat(p, n + 1) =~= p + repeat(p, n));
        assert(n * p.len() == (n - 1) * p.len() + p.len()) by (nonlinear_arith);
    }
}

/// Decoding one byte: CR and LF are Enter, DEL and BS are Backspace, HT is
/// Tab, ETX (Ctrl-C) is Interrupt, EOT (Ctrl-D) is EndOfInput, every byte
/// from space to `~` and every byte from 0x80 on is typed as itself, and
/// every other byte is ignored; one byte is used.
pub proof fn lemma_decode_one_byte(buf: Seq<u8>, i: int)
    requires
        0 <= i < buf.len(),
        !(buf[i] == 0x1B && i + 2 < buf.len() && buf[i + 1] == 0x5B && 0x41 <= buf[i + 2] <= 0x44),
    ensures
        ({
            let b = buf[i];
            spec_decode_key(buf, i) == (
                if b == 0x0D || b == 0x0A {
                    Key::Enter
                } else if b == 0x7F || b == 0x08 {
                    Key::Backspace
                } else if b == 0x09 {
                    Key::Tab
                } else if b == 0x03 {
                    Key::Interrupt
                } else if b == 0x04 {
                    Key::EndOfInput
                } else if (0x20 <= b && b <= 0x7E) || b >= 0x80 {
                    Key::Insert(b)
                } else {
                    Key::Ignore
                },
                1int,
            )
        }),
{
}

/// The arrow escape sequences ESC [ A, B, C, D are Up, Down, Right and
/// Left, and use three bytes.
pub proof fn lemma_decode_arrows(buf: Seq<u8>, i: int)
    requires
        0 <= i,
        i + 2 < buf.len(),
        buf[i] == 0x1B,
        buf[i + 1] == 0x5B,
    ensures
        buf[i + 2] == 0x41 ==> spec_decode_key(buf, i) == (Key::Up, 3int),
        buf[i + 2] == 0x42 ==> spec_decode_key(buf, i) == (Key::Down, 3int),
        buf[i + 2] == 0x43 ==> spec_decode_key(buf, i) == (Key::Right, 3int),
        buf[i + 2] == 0x44 ==> spec_decode_key(buf, i) == (Key::Left, 3int),
        !(0x41 <= buf[i + 2] <= 0x44) ==> spec_decode_key(buf, i) == (Key::Ignore, 1int),
{
}

/// Left moves the cursor one byte back, when it is not at the start, and
/// echoes ESC [ D; Right moves it one byte forward, when it is not at the
/// end, and echoes ESC [ C. Neither changes the line; at the edge they do
/// nothing and echo nothing.
pub proof fn lemma_step_moves(v: EditorView)
    requires
        editor_wf(v),
    ensures
        spec_step(v, Key::Left) == if v.cursor > 0 {
            (
                EditorView { text: v.text, cursor: v.cursor - 1 },
                Step::Continue,
                seq![0x1Bu8, 0x5Bu8, 0x44u8],
            )
        } else {
            (v, Step::Continue, Seq::<u8>::empty())
        },
        spec_step(v, Key::Right) == if v.cursor < v.text.len() {
            (
                EditorView { text: v.text, cursor: v.cursor + 1 },
                Step::Continue,
                seq![0x1Bu8, 0x5Bu8, 0x43u8],
            )
        } else {
            (v, Step::Continue, Seq::<u8>::empty())
        },
{
}

/// Backspace at the start of the line changes nothing and echoes nothing.
/// Elsewhere it removes exactly the byte before the cursor, moves the cursor
/// back by one, and echoes: one column left, the rest of the line, a blank,
/// and as many moves left as the rest of the line plus the blank.
pub proof fn lemma_step_backspace(v: EditorView)
    requires
        editor_wf(v),
    ensures
        ({
            let (w, st, e) = spec_step(v, Key::Backspace);
            let c = v.cursor;
            let n = v.text.len() as int;
            &&& st == Step::Continue
            &&& c == 0 ==> w == v && e == Seq::<u8>::empty()
            &&& c > 0 ==> {
                &&& w.text == v.text.subrange(0, c - 1) + v.text.subrange(c, n)
                &&& w.cursor == c - 1
                &&& e == seq![0x1Bu8, 0x5Bu8, 0x44u8] + v.text.subrange(c, n) + seq![0x20u8]
                    + repeat(seq![0x1Bu8, 0x5Bu8, 0x44u8], (n - c + 1) as nat)
            }
        }),
{
    let c = v.cursor;
    let n = v.text.len() as int;
    if c > 0 {
        let w = spec_backspace(v);
        assert(w.text =~= v.text.subrange(0, c - 1) + v.text.subrange(c, n));
        assert(w.text.subrange(w.cursor, w.text.len() as int) =~= v.text.subrange(c, n));
    }
}

/// Typing a byte, when the line is shorter than 255 bytes, puts it at the
/// cursor, moves the cursor past it, and echoes the byte, the rest of the
/// line after it, and as many moves left as that rest is long. When the
/// line holds 255 bytes nothing changes and nothing is echoed.
pub proof fn lemma_step_insert(v: EditorView, b: u8)
    requires
        editor_wf(v),
    ensures
        ({
            let (w, st, e) = spec_step(v, Key::Insert(b));
            let c = v.cursor;
            let n = v.text.len() as int;
            &&& st == Step::Continue
            &&& n < 255 ==> {
                &&& w.text == v.text.subrange(0, c) + seq![b] + v.text.subrange(c, n)
                &&& w.cursor == c + 1
                &&& e == seq![b] + v.text.subrange(c, n) + repeat(
                    seq![0x1Bu8, 0x5Bu8, 0x44u8],
                    (n - c) as nat,
                )
            }
            &&& n >= 255 ==> w == v && e == Seq::<u8>::empty()
        }),
{
    let c = v.cursor;
    let n = v.text.len() as int;
    if n < 255 {
        let w = spec_insert(v, b);
        assert(w.text =~= v.text.subrange(0, c) + seq![b] + v.text.subrange(c, n));
        assert(w.text.subrange(c, w.text.len() as int) =~= seq![b] + v.text.subrange(c, n));
    }
}

/// Enter submits the line and echoes CR LF; Ctrl-C submits it and echoes
/// `^C` CR LF; Ctrl-D on an empty line exits after echoing `exit` CR LF and
/// does nothing on a nonempty one; Up, Down and Tab ask for the history or
/// the completer; an ignored byte does nothing. None of these changes the
/// line or the cursor.
pub proof fn lemma_step_other_keys(v: EditorView)
    requires
        editor_wf(v),
    ensures
        spec_step(v, Key::Enter) == (v, Step::Submit, seq![0x0Du8, 0x0Au8]),
        spec_step(v, Key::Interrupt) == (v, Step::Submit, seq![0x5Eu8, 0x43u8, 0x0Du8, 0x0Au8]),
        v.text.len() == 0 ==> spec_step(v, Key::EndOfInput) == (
            v,
            Step::Exit,
            seq![0x65u8, 0x78u8, 0x69u8, 0x74u8, 0x0Du8, 0x0Au8],
        ),
        v.text.len() > 0 ==> spec_step(v, Key::EndOfInput) == (v, Step::Continue, Seq::<u8>::empty()),
        spec_step(v, Key::Up) == (v, Step::HistoryUp, Seq::<u8>::empty()),
        spec_step(v, Key::Down) == (v, Step::HistoryDown, Seq::<u8>::empty()),
        spec_step(v, Key::Tab) == (v, Step::Complete, Seq::<u8>::empty()),
        spec_step(v, Key::Ignore) == (v, Step::Continue, Seq::<u8>::empty()),
{
}


/// The prompt is `osh> `; erasing a line of `len` bytes sends a carriage
/// return, as many blanks as the prompt and the line take (5 + `len`), a
/// carriage return, and the prompt again.
pub proof fn lemma_clear_line_bytes(len: nat)
    ensures
        spec_prompt() == seq![0x6Fu8, 0x73u8, 0x68u8, 0x3Eu8, 0x20u8],
        spec_clear_line(len) == seq![0x0Du8] + repeat(seq![0x20u8], 5 + len) + seq![0x0Du8]
            + seq![0x6Fu8, 0x73u8, 0x68u8, 0x3Eu8, 0x20u8],
        spec_clear_line(len).len() == 12 + len,
{
    lemma_repeat_copies(seq![0x20u8], 5 + len);
    assert((5 + len) * 1 == 5 + len) by (nonlinear_arith);
    assert(repeat(seq![0x20u8], 5 + len).len() == 5 + len);
}

/// A history entry takes the place of the line, cut to its first 255 bytes,
/// with the cursor at its end; the echo erases the old line and prints the
/// new one. Without an entry, Up changes nothing and echoes nothing, and
/// Down empties the line and erases it from the terminal.
pub proof fn lemma_apply_history(v: EditorView, down: bool, entry: Option<Seq<u8>>)
    requires
        editor_wf(v),
    ensures
        ({
            let (w, e) = spec_apply_history(v, down, entry);
            match entry {
                Some(x) => {
                    let t = if x.len() <= 255 { x } else { x.subrange(0, 255) };
                    &&& w.text == t
                    &&& w.cursor == t.len()
                    &&& e == spec_clear_line(v.text.len()) + t
                },
                None => if down {
                    w.text.len() == 0 && w.cursor == 0 && e == spec_clear_line(v.text.len())
                } else {
                    w == v && e == Seq::<u8>::empty()
                },
            }
        }),
{
}

/// A completion puts `new_line`, cut to its first 255 bytes, in place of
/// the line, with the cursor at `new_cursor` or at the end of the new line,
/// whichever comes first; the echo erases the old line, prints the prompt
/// again when the completer printed candidates, prints the new line, and
/// moves back from its end to the cursor.
pub proof fn lemma_complete(v: EditorView, new_line: Seq<u8>, new_cursor: usize, printed: bool)
    requires
        editor_wf(v),
    ensures
        ({
            let w = spec_complete(new_line, new_cursor);
            let t = if new_line.len() <= 255 { new_line } else { new_line.subrange(0, 255) };
            let c = if new_cursor <= t.len() { new_cursor as int } else { t.len() as int };
            &&& w.text == t
            &&& w.cursor == c
            &&& complete_echo(v, new_line, new_cursor, printed) == spec_clear_line(v.text.len()) + (
                if printed { seq![0x6Fu8, 0x73u8, 0x68u8, 0x3Eu8, 0x20u8] } else { Seq::<u8>::empty() })
                + t + repeat(seq![0x1Bu8, 0x5Bu8, 0x44u8], (t.len() - c) as nat)
        }),
{
}

/// Deleting right after inserting gives back the line and cursor as they
/// were, whenever the line had room for the byte.
pub proof fn lemma_backspace_undoes_insert(v: EditorView, c: u8)
    requires
        editor_wf(v),
        v.text.len() < LINE_MAX - 1,
    ensures
        spec_backspace(spec_insert(v, c)) == v,
{
    assert(spec_backspace(spec_insert(v, c)).text =~= v.text);
}

/// Moving left then right, or right then left, leaves the cursor where it
/// was, whenever the first move was possible.
pub proof fn lemma_moves_undo(v: EditorView)
    requires
        editor_wf(v),
    ensures
        v.cursor > 0 ==> spec_move_right(spec_move_left(v)) == v,
        v.cursor < v.text.len() ==> spec_move_left(spec_move_right(v)) == v,
{
}

/// Every byte of a multi-byte UTF-8 sequence is taken as typed text.
pub proof fn lemma_high_bytes_insert(buf: Seq<u8>, i: int)
    requires
        0 <= i < buf.len(),
        buf[i] >= 0x80,
    ensures
        spec_decode_key(buf, i) == (Key::Insert(buf[i]), 1int),
{
}

/// A byte typed at the end of a line that has room for it is appended to
/// the line and echoed as itself.
pub proof fn lemma_insert_at_end(v: EditorView, c: u8)
    requires
        editor_wf(v),
        v.cursor == v.text.len(),
        v.text.len() < LINE_MAX - 1,
    ensures
        spec_insert(v, c) == (EditorView { text: v.text.push(c), cursor: v.cursor + 1 }),
        insert_echo(v, c) == seq![c],
{
    let w = spec_insert(v, c);
    assert(w.text =~= v.text.push(c));
    assert(w.text.subrange(v.cursor, w.text.len() as int) =~= seq![c]);
    assert(insert_echo(v, c) =~= seq![c]);
}

/// The two UTF-8 bytes of a Russian letter, as produced by the keyboard
/// layout, typed at the end of a line with room for them, go into the line
/// as they are and are echoed as they are.
pub proof fn lemma_cyrillic_round_trip(v: EditorView, c: u8)
    requires
        editor_wf(v),
        v.cursor == v.text.len(),
        v.text.len() + 2 < LINE_MAX,
        cyrillic_letter(c) is Some,
    ensures
        ({
            let (lead, cont) = cyrillic_bytes(c);
            let buf = seq![lead, cont];
            let (k1, n1) = spec_decode_key(buf, 0);
            let (k2, n2) = spec_decode_key(buf, n1);
            let (v1, s1, e1) = spec_step(v, k1);
            let (v2, s2, e2) = spec_step(v1, k2);
            &&& n1 == 1 && n2 == 1
            &&& s1 == Step::Continue && s2 == Step::Continue
            &&& v2.text == v.text + buf
            &&& e1 + e2 == buf
        }),
{
    crate::keymap::lemma_mapping_is_cyrillic_utf8(c);
    let (lead, cont) = cyrillic_bytes(c);
    let buf = seq![lead, cont];
    lemma_high_bytes_insert(buf, 0);
    lemma_high_bytes_insert(buf, 1);
    lemma_insert_at_end(v, lead);
    let v1 = spec_insert(v, lead);
    lemma_insert_at_end(v1, cont);
    assert(spec_insert(v1, cont).text =~= v.text + buf);
    assert(seq![lead] + seq![cont] =~= buf);
}

} // verus!
