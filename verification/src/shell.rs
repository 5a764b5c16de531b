//! Line editor, tokenizer, command registry.
//!
//! No port I/O here. The kernel thread feeds decoded keys, looks up names
//! in the registry, and runs what the entry holds. Subsystems register
//! commands into the table; there is no growing `match` on name.

use vstd::prelude::*;
use vstd::string::StringSliceAdditionalSpecFns;
use crate::kbd::{DecodedKey, NamedKey};

verus! {

pub const LINE_CAP: usize = 128;

pub const HIST_CAP: usize = 16;

pub const MAX_TOKENS: usize = 16;

pub const MAX_COMMANDS: usize = 48;

pub const PROMPT: &'static str = "vibeos> ";

#[derive(Clone, Copy, Debug, PartialEq, Eq, Structural)]
pub enum Feed {
    Pending,
    Submit,
    Cancel,
    Complete,
}

#[derive(Clone, Copy, Debug, PartialEq, Eq, Structural)]
pub enum TokenError {
    UnclosedQuote,
    TooMany,
}

impl TokenError {
    pub fn as_str(self) -> (r: &'static str)
        ensures
            r@ == (match self {
                TokenError::UnclosedQuote => "unclosed quote"@,
                TokenError::TooMany => "too many tokens"@,
            }),
    {
        match self {
            TokenError::UnclosedQuote => "unclosed quote",
            TokenError::TooMany => "too many tokens",
        }
    }
}

/// What a line editor holds: the line and its cursor, the history
/// (oldest first), which history entry is on screen, and the line that
/// was being typed before history browsing began.
pub ghost struct EditorModel {
    pub line: Seq<u8>,
    pub cur: nat,
    pub hist: Seq<Seq<u8>>,
    pub view: Option<nat>,
    pub draft: Seq<u8>,
}

/// An empty line, no history.
pub open spec fn model_new() -> EditorModel {
    EditorModel { line: Seq::empty(), cur: 0, hist: Seq::empty(), view: None, draft: Seq::empty() }
}

pub open spec fn model_clear(m: EditorModel) -> EditorModel {
    EditorModel { line: Seq::empty(), cur: 0, view: None, draft: Seq::empty(), ..m }
}

/// Insert `c` at the cursor unless the line is full.
pub open spec fn model_insert(m: EditorModel, c: u8) -> EditorModel {
    if m.line.len() >= LINE_CAP {
        m
    } else {
        EditorModel { line: m.line.insert(m.cur as int, c), cur: m.cur + 1, view: None, ..m }
    }
}

pub open spec fn model_left(m: EditorModel) -> EditorModel {
    if m.cur > 0 {
        EditorModel { cur: (m.cur - 1) as nat, ..m }
    } else {
        m
    }
}

pub open spec fn model_right(m: EditorModel) -> EditorModel {
    if m.cur < m.line.len() {
        EditorModel { cur: m.cur + 1, ..m }
    } else {
        m
    }
}

pub open spec fn model_home(m: EditorModel) -> EditorModel {
    EditorModel { cur: 0, ..m }
}

pub open spec fn model_end(m: EditorModel) -> EditorModel {
    EditorModel { cur: m.line.len(), ..m }
}

/// Remove the byte under the cursor, if there is one.
pub open spec fn model_delete(m: EditorModel) -> EditorModel {
    if m.cur >= m.line.len() {
        m
    } else {
        EditorModel { line: m.line.remove(m.cur as int), view: None, ..m }
    }
}

/// Remove the byte before the cursor, if there is one.
pub open spec fn model_backspace(m: EditorModel) -> EditorModel {
    if m.cur == 0 {
        m
    } else {
        EditorModel { line: m.line.remove(m.cur - 1), cur: (m.cur - 1) as nat, view: None, ..m }
    }
}

pub open spec fn model_kill_to_start(m: EditorModel) -> EditorModel {
    if m.cur == 0 {
        m
    } else {
        EditorModel { line: m.line.skip(m.cur as int), cur: 0, view: None, ..m }
    }
}

pub open spec fn model_kill_to_end(m: EditorModel) -> EditorModel {
    EditorModel { line: m.line.take(m.cur as int), view: None, ..m }
}

/// History after submitting `line`: a repeat of the newest entry is not
/// stored again, and a full history drops its oldest entry.
pub open spec fn hist_push(hist: Seq<Seq<u8>>, line: Seq<u8>) -> Seq<Seq<u8>> {
    if line.len() == 0 {
        hist
    } else if hist.len() > 0 && hist.last() == line {
        hist
    } else if hist.len() < HIST_CAP {
        hist.push(line)
    } else {
        hist.skip(1).push(line)
    }
}

pub open spec fn model_submit(m: EditorModel) -> EditorModel {
    EditorModel { hist: hist_push(m.hist, m.line), view: None, draft: Seq::empty(), ..m }
}

/// Show history entry `i`, cursor at its end.
pub open spec fn model_load(m: EditorModel, i: nat) -> EditorModel {
    EditorModel { line: m.hist[i as int], cur: m.hist[i as int].len(), view: Some(i), ..m }
}

/// One entry older; the first step saves the line being typed.
pub open spec fn model_up(m: EditorModel) -> EditorModel {
    if m.hist.len() == 0 {
        m
    } else {
        match m.view {
            None => model_load(EditorModel { draft: m.line, ..m }, (m.hist.len() - 1) as nat),
            Some(i) => if i == 0 {
                m
            } else {
                model_load(m, (i - 1) as nat)
            },
        }
    }
}

/// One entry newer; past the newest comes back to the saved line.
pub open spec fn model_down(m: EditorModel) -> EditorModel {
    match m.view {
        None => m,
        Some(i) => if i + 1 >= m.hist.len() {
            EditorModel { line: m.draft, cur: m.draft.len(), view: None, ..m }
        } else {
            model_load(m, i + 1)
        },
    }
}

/// The line replaced by (at most `LINE_CAP` bytes of) `s`.
pub open spec fn model_set_line(m: EditorModel, s: Seq<u8>) -> EditorModel {
    let n = if s.len() < LINE_CAP { s.len() } else { LINE_CAP as nat };
    EditorModel { line: s.take(n as int), cur: n, view: None, ..m }
}

/// A control or printable byte.
pub open spec fn step_char(m: EditorModel, c: u8) -> (EditorModel, Feed) {
    if c == 0x03 {
        (model_clear(m), Feed::Cancel)
    } else if c == 0x15 {
        (model_kill_to_start(m), Feed::Pending)
    } else if c == 0x0B {
        (model_kill_to_end(m), Feed::Pending)
    } else if c == 0x01 {
        (model_home(m), Feed::Pending)
    } else if c == 0x05 {
        (model_end(m), Feed::Pending)
    } else if c == 0x02 {
        (model_left(m), Feed::Pending)
    } else if c == 0x06 {
        (model_right(m), Feed::Pending)
    } else if c == 0x10 {
        (model_up(m), Feed::Pending)
    } else if c == 0x0E {
        (model_down(m), Feed::Pending)
    } else if c == 0x08 || c == 0x7F {
        (model_backspace(m), Feed::Pending)
    } else if c == 0x0A || c == 0x0D {
        (model_submit(m), Feed::Submit)
    } else if c == 0x09 {
        (m, Feed::Complete)
    } else if 0x20 <= c <= 0x7E {
        (model_insert(m, c), Feed::Pending)
    } else {
        (m, Feed::Pending)
    }
}

/// A named key; those the editor does not use change nothing.
pub open spec fn step_named(m: EditorModel, k: NamedKey) -> (EditorModel, Feed) {
    match k {
        NamedKey::Left => (model_left(m), Feed::Pending),
        NamedKey::Right => (model_right(m), Feed::Pending),
        NamedKey::Home => (model_home(m), Feed::Pending),
        NamedKey::End => (model_end(m), Feed::Pending),
        NamedKey::Up => (model_up(m), Feed::Pending),
        NamedKey::Down => (model_down(m), Feed::Pending),
        NamedKey::Backspace => (model_backspace(m), Feed::Pending),
        NamedKey::Delete => (model_delete(m), Feed::Pending),
        NamedKey::Enter => (model_submit(m), Feed::Submit),
        NamedKey::Esc => (model_clear(m), Feed::Cancel),
        NamedKey::Tab => (m, Feed::Complete),
        _ => (m, Feed::Pending),
    }
}

/// The editor after one key, and what the key asks of the caller.
pub open spec fn step(m: EditorModel, key: DecodedKey) -> (EditorModel, Feed) {
    match key {
        DecodedKey::Char(c) => step_char(m, c),
        DecodedKey::Named(k) => step_named(m, k),
    }
}

/// What a key asks of the caller, whatever the editor holds: Enter (or a
/// line feed or carriage return) submits, Esc or Ctrl-C cancels and leaves
/// an empty line, Tab asks for completion and leaves the line and cursor
/// alone, and every other key is pending.
pub proof fn lemma_feed_outcome(m: EditorModel, key: DecodedKey)
    ensures
        (step(m, key).1 == Feed::Submit) <==> (key == DecodedKey::Char(0x0A) || key == DecodedKey::Char(0x0D)
            || key == DecodedKey::Named(NamedKey::Enter)),
        (step(m, key).1 == Feed::Cancel) <==> (key == DecodedKey::Char(0x03) || key == DecodedKey::Named(
            NamedKey::Esc,
        )),
        (step(m, key).1 == Feed::Complete) <==> (key == DecodedKey::Char(0x09) || key == DecodedKey::Named(
            NamedKey::Tab,
        )),
        step(m, key).1 == Feed::Cancel ==> step(m, key).0.line.len() == 0 && step(m, key).0.cur == 0,
        step(m, key).1 == Feed::Complete ==> step(m, key).0.line == m.line && step(m, key).0.cur == m.cur,
{
}

/// The cursor keys move the cursor within `0..=len` and change nothing
/// else: Right (or Ctrl-F) one byte on until the end of the line, Left
/// (or Ctrl-B) one byte back until its start, Home and End to its two
/// ends. Left then Right, away from the start, and Right then Left, away
/// from the end, come back to where the cursor was.
pub proof fn lemma_cursor_keys(m: EditorModel)
    requires
        m.cur <= m.line.len(),
    ensures
        step(m, DecodedKey::Named(NamedKey::Right)).0.line == m.line,
        step(m, DecodedKey::Named(NamedKey::Right)).0.hist == m.hist,
        m.cur < m.line.len() ==> step(m, DecodedKey::Named(NamedKey::Right)).0 == (EditorModel { cur: m.cur + 1, ..m }),
        m.cur == m.line.len() ==> step(m, DecodedKey::Named(NamedKey::Right)).0 == m,
        step(m, DecodedKey::Char(0x06)).0 == step(m, DecodedKey::Named(NamedKey::Right)).0,
        step(m, DecodedKey::Named(NamedKey::Left)).0.line == m.line,
        step(m, DecodedKey::Named(NamedKey::Left)).0.hist == m.hist,
        m.cur > 0 ==> step(m, DecodedKey::Named(NamedKey::Left)).0.cur + 1 == m.cur,
        m.cur == 0 ==> step(m, DecodedKey::Named(NamedKey::Left)).0.cur == 0,
        step(m, DecodedKey::Char(0x02)).0 == step(m, DecodedKey::Named(NamedKey::Left)).0,
        step(m, DecodedKey::Named(NamedKey::Home)).0.cur == 0,
        step(m, DecodedKey::Named(NamedKey::Home)).0.line == m.line,
        step(m, DecodedKey::Named(NamedKey::End)).0.cur == m.line.len(),
        step(m, DecodedKey::Named(NamedKey::End)).0.line == m.line,
        m.cur > 0 ==> step(step(m, DecodedKey::Named(NamedKey::Left)).0, DecodedKey::Named(NamedKey::Right)).0.cur
            == m.cur,
        m.cur < m.line.len() ==> step(step(m, DecodedKey::Named(NamedKey::Right)).0, DecodedKey::Named(
            NamedKey::Left,
        )).0.cur == m.cur,
{
}

/// Insert-mode line with history. Cursor is a byte index in `0..=len`.
pub struct LineEditor {
    buf: Vec<u8>,
    cur: usize,
    hist: Vec<Vec<u8>>,
    view: Option<usize>,
    draft: Vec<u8>,
}

impl View for LineEditor {
    type V = EditorModel;

    closed spec fn view(&self) -> EditorModel {
        EditorModel {
            line: self.buf@,
            cur: self.cur as nat,
            hist: self.hist@.map_values(|v: Vec<u8>| v@),
            view: match self.view {
                Some(i) => Some(i as nat),
                None => None,
            },
            draft: self.draft@,
        }
    }
}

/// A model the editor can be in: line and saved line within capacity,
/// cursor on the line, at most `HIST_CAP` non-empty entries, and a shown
/// entry that exists.
pub open spec fn model_ok(m: EditorModel) -> bool {
    &&& m.line.len() <= LINE_CAP
    &&& m.cur <= m.line.len()
    &&& m.draft.len() <= LINE_CAP
    &&& m.hist.len() <= HIST_CAP
    &&& forall|i: int| 0 <= i < m.hist.len() ==> 0 < (#[trigger] m.hist[i]).len() <= LINE_CAP
    &&& m.view matches Some(i) ==> i < m.hist.len()
}

fn copy_bytes(v: &Vec<u8>) -> (r: Vec<u8>)
    ensures
        r@ == v@,
{
    let mut out: Vec<u8> = Vec::new();
    let mut i = 0usize;
    while i < v.len()
        invariant
            i <= v@.len(),
            out@ == v@.take(i as int),
        decreases v@.len() - i,
    {
        out.push(v[i]);
        i += 1;
        assert(out@ =~= v@.take(i as int));
    }
    assert(v@.take(i as int) =~= v@);
    out
}

impl LineEditor {
    pub closed spec fn wf(&self) -> bool {
        model_ok(self@)
    }

    /// What `wf` promises callers: the editor's model is one it can be in,
    /// so the cursor is on a line within capacity.
    pub proof fn lemma_wf(&self)
        requires
            self.wf(),
        ensures
            model_ok(self@),
            self@.cur <= self@.line.len() <= LINE_CAP,
    {
    }

    pub fn new() -> (r: Self)
        ensures
            r.wf(),
            r@ == model_new(),
    {
        let r = LineEditor { buf: Vec::new(), cur: 0, hist: Vec::new(), view: None, draft: Vec::new() };
        assert(r@.hist =~= Seq::<Seq<u8>>::empty());
        r
    }

    pub fn len(&self) -> (r: usize)
        ensures
            r == self@.line.len(),
    {
        self.buf.len()
    }

    pub fn cursor(&self) -> (r: usize)
        ensures
            r == self@.cur,
    {
        self.cur
    }

    pub fn line(&self) -> (r: &[u8])
        ensures
            r@ == self@.line,
    {
        self.buf.as_slice()
    }

    /// The line as UTF-8 text.
    pub fn line_str(&self) -> (r: Result<&str, core::str::Utf8Error>)
        ensures
            vstd::utf8::valid_utf8(self@.line) <==> r is Ok,
            r matches Ok(s) ==> s.spec_bytes() == self@.line,
    {
        crate::log::utf8_str(self.line())
    }

    pub fn clear(&mut self)
        requires
            old(self).wf(),
        ensures
            final(self).wf(),
            final(self)@ == model_clear(old(self)@),
    {
        self.buf = Vec::new();
        self.cur = 0;
        self.view = None;
        self.draft = Vec::new();
        assert(self@ =~= model_clear(old(self)@));
    }

    pub fn set_line(&mut self, s: &[u8])
        requires
            old(self).wf(),
        ensures
            final(self).wf(),
            final(self)@ == model_set_line(old(self)@, s@),
    {
        let n = if s.len() < LINE_CAP { s.len() } else { LINE_CAP };
        let mut out: Vec<u8> = Vec::new();
        let mut i = 0usize;
        while i < n
            invariant
                n <= s@.len(),
                i <= n,
                out@ == s@.take(i as int),
            decreases n - i,
        {
            out.push(s[i]);
            i += 1;
            assert(out@ =~= s@.take(i as int));
        }
        self.buf = out;
        self.cur = n;
        self.view = None;
        assert(self@ =~= model_set_line(old(self)@, s@));
    }

    pub fn feed(&mut self, key: DecodedKey) -> (r: Feed)
        requires
            old(self).wf(),
        ensures
            final(self).wf(),
            (final(self)@, r) == step(old(self)@, key),
    {
        match key {
            DecodedKey::Char(c) => self.feed_char(c),
            DecodedKey::Named(n) => self.feed_named(n),
        }
    }

    fn feed_char(&mut self, c: u8) -> (r: Feed)
        requires
            old(self).wf(),
        ensures
            final(self).wf(),
            (final(self)@, r) == step_char(old(self)@, c),
    {
        match c {
            0x03 => {
                self.clear();
                Feed::Cancel
            },
            0x15 => {
                self.kill_to_start();
                Feed::Pending
            },
            0x0B => {
                self.kill_to_end();
                Feed::Pending
            },
            0x01 => {
                self.cur = 0;
                Feed::Pending
            },
            0x05 => {
                self.cur = self.buf.len();
                Feed::Pending
            },
            0x02 => {
                self.left();
                Feed::Pending
            },
            0x06 => {
                self.right();
                Feed::Pending
            },
            0x10 => {
                self.history_up();
                Feed::Pending
            },
            0x0E => {
                self.history_down();
                Feed::Pending
            },
            0x08 | 0x7F => {
                self.backspace();
                Feed::Pending
            },
            0x0A | 0x0D => self.submit(),
            0x09 => Feed::Complete,
            0x20..=0x7E => {
                self.insert(c);
                Feed::Pending
            },
            _ => Feed::Pending,
        }
    }

    fn feed_named(&mut self, n: NamedKey) -> (r: Feed)
        requires
            old(self).wf(),
        ensures
            final(self).wf(),
            (final(self)@, r) == step_named(old(self)@, n),
    {
        match n {
            NamedKey::Left => self.left(),
            NamedKey::Right => self.right(),
            NamedKey::Home => self.cur = 0,
            NamedKey::End => self.cur = self.buf.len(),
            NamedKey::Up => self.history_up(),
            NamedKey::Down => self.history_down(),
            NamedKey::Backspace => self.backspace(),
            NamedKey::Delete => self.delete(),
            NamedKey::Enter => {
                return self.submit();
            },
            NamedKey::Esc => {
                self.clear();
                return Feed::Cancel;
            },
            NamedKey::Tab => {
                return Feed::Complete;
            },
            NamedKey::Insert | NamedKey::PageUp | NamedKey::PageDown | NamedKey::F1 | NamedKey::F2
            | NamedKey::F3 | NamedKey::F4 | NamedKey::F5 | NamedKey::F6 | NamedKey::F7
            | NamedKey::F8 | NamedKey::F9 | NamedKey::F10 | NamedKey::F11 | NamedKey::F12
            | NamedKey::CapsLock | NamedKey::NumLock | NamedKey::ScrollLock | NamedKey::LeftShift
            | NamedKey::RightShift | NamedKey::LeftCtrl | NamedKey::RightCtrl | NamedKey::LeftAlt
            | NamedKey::RightAlt => {},
        }
        Feed::Pending
    }

    fn left(&mut self)
        requires
            old(self).wf(),
        ensures
            final(self).wf(),
            final(self)@ == model_left(old(self)@),
    {
        if self.cur > 0 {
            self.cur -= 1;
        }
    }

    fn right(&mut self)
        requires
            old(self).wf(),
        ensures
            final(self).wf(),
            final(self)@ == model_right(old(self)@),
    {
        if self.cur < self.buf.len() {
            self.cur += 1;
        }
    }

    fn insert(&mut self, c: u8)
        requires
            old(self).wf(),
        ensures
            final(self).wf(),
            final(self)@ == model_insert(old(self)@, c),
    {
        if self.buf.len() >= LINE_CAP {
            return;
        }
        self.buf.insert(self.cur, c);
        self.cur += 1;
        self.view = None;
        assert(self@ =~= model_insert(old(self)@, c));
    }

    fn backspace(&mut self)
        requires
            old(self).wf(),
        ensures
            final(self).wf(),
            final(self)@ == model_backspace(old(self)@),
    {
        if self.cur == 0 {
            return;
        }
        self.cur -= 1;
        self.buf.remove(self.cur);
        self.view = None;
        assert(self@ =~= model_backspace(old(self)@));
    }

    fn delete(&mut self)
        requires
            old(self).wf(),
        ensures
            final(self).wf(),
            final(self)@ == model_delete(old(self)@),
    {
        if self.cur >= self.buf.len() {
            return;
        }
        self.buf.remove(self.cur);
        self.view = None;
        assert(self@ =~= model_delete(old(self)@));
    }

    fn kill_to_start(&mut self)
        requires
            old(self).wf(),
        ensures
            final(self).wf(),
            final(self)@ == model_kill_to_start(old(self)@),
    {
        if self.cur == 0 {
            return;
        }
        let mut rest: Vec<u8> = Vec::new();
        let mut i = self.cur;
        while i < self.buf.len()
            invariant
                self.cur <= i <= self.buf@.len(),
                rest@ == self.buf@.subrange(self.cur as int, i as int),
            decreases self.buf@.len() - i,
        {
            rest.push(self.buf[i]);
            i += 1;
            assert(rest@ =~= self.buf@.subrange(self.cur as int, i as int));
        }
        self.buf = rest;
        self.cur = 0;
        self.view = None;
        assert(self@ =~= model_kill_to_start(old(self)@));
    }

    fn kill_to_end(&mut self)
        requires
            old(self).wf(),
        ensures
            final(self).wf(),
            final(self)@ == model_kill_to_end(old(self)@),
    {
        self.buf.truncate(self.cur);
        self.view = None;
        assert(self@ =~= model_kill_to_end(old(self)@));
    }

    fn submit(&mut self) -> (r: Feed)
        requires
            old(self).wf(),
        ensures
            final(self).wf(),
            final(self)@ == model_submit(old(self)@),
            r == Feed::Submit,
    {
        if self.buf.len() > 0 {
            self.push_history();
        }
        self.view = None;
        self.draft = Vec::new();
        assert(self@ =~= model_submit(old(self)@));
        Feed::Submit
    }

    fn push_history(&mut self)
        requires
            old(self).wf(),
            old(self)@.line.len() > 0,
        ensures
            final(self).wf(),
            final(self)@ == (EditorModel { hist: hist_push(old(self)@.hist, old(self)@.line), ..old(self)@ }),
    {
        let ghost h = self.hist@.map_values(|v: Vec<u8>| v@);
        let n = self.hist.len();
        if n > 0 {
            let same = bytes_equal(&self.hist[n - 1], &self.buf);
            if same {
                assert(self.hist@.map_values(|v: Vec<u8>| v@).last() == self.buf@);
                return;
            }
        }
        let line = copy_bytes(&self.buf);
        if n >= HIST_CAP {
            self.hist.remove(0);
            assert(self.hist@.map_values(|v: Vec<u8>| v@) =~= h.skip(1));
        }
        let ghost h1 = self.hist@.map_values(|v: Vec<u8>| v@);
        self.hist.push(line);
        assert(self.hist@.map_values(|v: Vec<u8>| v@) =~= h1.push(self.buf@));
        assert(self@ =~= (EditorModel { hist: hist_push(old(self)@.hist, old(self)@.line), ..old(self)@ }));
    }

    fn history_up(&mut self)
        requires
            old(self).wf(),
        ensures
            final(self).wf(),
            final(self)@ == model_up(old(self)@),
    {
        if self.hist.len() == 0 {
            return;
        }
        match self.view {
            None => {
                self.draft = copy_bytes(&self.buf);
                let last = self.hist.len() - 1;
                self.load_hist(last);
            },
            Some(i) => {
                if i > 0 {
                    self.load_hist(i - 1);
                }
            },
        }
    }

    fn history_down(&mut self)
        requires
            old(self).wf(),
        ensures
            final(self).wf(),
            final(self)@ == model_down(old(self)@),
    {
        match self.view {
            None => {},
            Some(i) => {
                if i + 1 >= self.hist.len() {
                    self.buf = copy_bytes(&self.draft);
                    self.cur = self.buf.len();
                    self.view = None;
                    assert(self@ =~= model_down(old(self)@));
                } else {
                    self.load_hist(i + 1);
                }
            },
        }
    }

    fn load_hist(&mut self, i: usize)
        requires
            old(self).wf(),
            i < old(self)@.hist.len(),
        ensures
            final(self).wf(),
            final(self)@ == model_load(old(self)@, i as nat),
    {
        self.buf = copy_bytes(&self.hist[i]);
        self.cur = self.buf.len();
        self.view = Some(i);
        assert(self@ =~= model_load(old(self)@, i as nat));
    }
}

fn bytes_equal(a: &Vec<u8>, b: &Vec<u8>) -> (r: bool)
    ensures
        r == (a@ == b@),
{
    crate::log::bytes_eq(a.as_slice(), b.as_slice())
}


pub open spec fn is_ws_byte(c: u8) -> bool {
    c == 0x20 || c == 0x09
}

pub open spec fn is_quote_byte(c: u8) -> bool {
    c == 0x22 || c == 0x27
}

/// First index at or after `i` that is not a blank.
pub open spec fn skip_ws(b: Seq<u8>, i: int) -> int
    decreases b.len() - i,
{
    if 0 <= i < b.len() && is_ws_byte(b[i]) {
        skip_ws(b, i + 1)
    } else {
        i
    }
}

/// First index at or after `i` that ends an unquoted word: a blank, a
/// quote, or the end.
pub open spec fn word_end(b: Seq<u8>, i: int) -> int
    decreases b.len() - i,
{
    if 0 <= i < b.len() && !is_ws_byte(b[i]) && !is_quote_byte(b[i]) {
        word_end(b, i + 1)
    } else {
        i
    }
}

/// First index at or after `i` that holds the quote `q`, or the end.
pub open spec fn quote_end(b: Seq<u8>, i: int, q: u8) -> int
    decreases b.len() - i,
{
    if 0 <= i < b.len() && b[i] != q {
        quote_end(b, i + 1, q)
    } else {
        i
    }
}

pub proof fn lemma_scan_bounds(b: Seq<u8>, i: int, q: u8)
    requires
        0 <= i <= b.len(),
    ensures
        i <= skip_ws(b, i) <= b.len(),
        i <= word_end(b, i) <= b.len(),
        i <= quote_end(b, i, q) <= b.len(),
        forall|k: int| i <= k < skip_ws(b, i) ==> is_ws_byte(#[trigger] b[k]),
        skip_ws(b, i) < b.len() ==> !is_ws_byte(b[skip_ws(b, i)]),
        word_end(b, i) < b.len() ==> is_ws_byte(b[word_end(b, i)]) || is_quote_byte(b[word_end(b, i)]),
        quote_end(b, i, q) < b.len() ==> b[quote_end(b, i, q)] == q,
    decreases b.len() - i,
{
    if i < b.len() {
        lemma_scan_bounds(b, i + 1, q);
    }
}

/// Byte spans `[start, end)` of the tokens of `b` from index `i` on, with
/// room for `room` more: blanks separate tokens, a quote runs to the same
/// quote, a word stops at a blank or a quote. An unclosed quote, or a
/// token past the room, is an error; the earlier of the two wins.
pub open spec fn spans_from(b: Seq<u8>, i: int, room: int) -> Result<Seq<(int, int)>, TokenError>
    decreases b.len() - i,
{
    if i < 0 || skip_ws(b, i) >= b.len() {
        Ok(Seq::empty())
    } else if room <= 0 {
        Err(TokenError::TooMany)
    } else {
        let j = skip_ws(b, i);
        proof {
            lemma_scan_bounds(b, i, 0);
            lemma_scan_bounds(b, j, 0);
            lemma_scan_bounds(b, j + 1, b[j]);
        }
        if is_quote_byte(b[j]) {
            let k = quote_end(b, j + 1, b[j]);
            if k >= b.len() {
                Err(TokenError::UnclosedQuote)
            } else {
                match spans_from(b, k + 1, room - 1) {
                    Ok(rest) => Ok(seq![(j + 1, k)] + rest),
                    Err(e) => Err(e),
                }
            }
        } else {
            let k = word_end(b, j);
            if k <= i {
                Ok(Seq::empty())
            } else {
                match spans_from(b, k, room - 1) {
                    Ok(rest) => Ok(seq![(j, k)] + rest),
                    Err(e) => Err(e),
                }
            }
        }
    }
}

/// `done` followed by the outcome `rest` of the remaining input.
pub open spec fn prepend_spans(
    done: Seq<(int, int)>,
    rest: Result<Seq<(int, int)>, TokenError>,
) -> Result<Seq<(int, int)>, TokenError> {
    match rest {
        Ok(r) => Ok(done + r),
        Err(e) => Err(e),
    }
}

/// A byte after an ASCII byte at a character boundary starts a character.
proof fn lemma_after_ascii(b: Seq<u8>, k: int)
    requires
        vstd::utf8::valid_utf8(b),
        0 <= k < b.len(),
        vstd::utf8::is_char_boundary(b, k),
        b[k] < 0x80,
    ensures
        vstd::utf8::is_char_boundary(b, k + 1),
    decreases b.len(),
{
    let p = vstd::utf8::pop_first_scalar(b);
    let l = vstd::utf8::length_of_first_scalar(b);
    if k == 0 {
        assert(l == 1);
        assert(vstd::utf8::is_char_boundary(p, 0));
    } else {
        assert(vstd::utf8::is_char_boundary(p, k - l));
        assert(0 <= k - l);
        assert(p[k - l] == b[k]);
        lemma_after_ascii(p, k - l);
    }
}

/// Index `i` of `b` starts a character (or is the end).
pub open spec fn starts_char(b: Seq<u8>, i: int) -> bool {
    i < b.len() ==> !vstd::utf8::is_continuation_byte(b[i])
}

proof fn lemma_boundary(b: Seq<u8>, i: int)
    requires
        vstd::utf8::valid_utf8(b),
        0 <= i <= b.len(),
    ensures
        starts_char(b, i) <==> vstd::utf8::is_char_boundary(b, i),
{
    vstd::utf8::is_char_boundary_start_end_of_seq(b);
    if i < b.len() {
        vstd::utf8::is_char_boundary_iff_not_is_continuation_byte(b, i);
    }
}

proof fn lemma_next_starts_char(b: Seq<u8>, k: int)
    requires
        vstd::utf8::valid_utf8(b),
        0 <= k < b.len(),
        b[k] < 0x80,
    ensures
        starts_char(b, k + 1),
{
    lemma_boundary(b, k);
    lemma_after_ascii(b, k);
    lemma_boundary(b, k + 1);
}

/// The part of `line` between byte offsets `a` and `c`, both at character
/// starts.
fn sub_str<'a>(line: &'a str, a: usize, c: usize) -> (r: &'a str)
    requires
        a <= c <= line.spec_bytes().len(),
        starts_char(line.spec_bytes(), a as int),
        starts_char(line.spec_bytes(), c as int),
    ensures
        r.spec_bytes() == line.spec_bytes().subrange(a as int, c as int),
{
    let ghost b = line.spec_bytes();
    proof {
        vstd::utf8::encode_utf8_valid_utf8(line@);
        lemma_boundary(b, a as int);
    }
    let (_, rest) = line.split_at(a);
    let ghost rb = rest.spec_bytes();
    proof {
        vstd::utf8::encode_utf8_valid_utf8(rest@);
        assert(rb =~= b.subrange(a as int, b.len() as int));
        if c < b.len() {
            assert(rb[c - a] == b[c as int]);
        }
        lemma_boundary(rb, c - a);
    }
    let (tok, _) = rest.split_at(c - a);
    proof {
        assert(tok.spec_bytes() =~= b.subrange(a as int, c as int));
    }
    tok
}

/// Split `line` on whitespace. Quotes (`'` / `"`) keep interior spaces.
/// No escapes. Unclosed quote is an error. Empty unquoted spans are dropped.
pub fn tokenize<'a>(line: &'a str, out: &mut [&'a str]) -> (r: Result<usize, TokenError>)
    ensures
        final(out)@.len() == old(out)@.len(),
        (match r {
            Ok(n) => spans_from(line.spec_bytes(), 0, old(out)@.len() as int) matches Ok(sp)
                && n == sp.len()
                && (forall|k: int| 0 <= k < n ==> (#[trigger] final(out)@[k]).spec_bytes()
                    == line.spec_bytes().subrange(sp[k].0, sp[k].1))
                && (forall|k: int| n <= k < old(out)@.len() ==> #[trigger] final(out)@[k] == old(out)@[k]),
            Err(e) => spans_from(line.spec_bytes(), 0, old(out)@.len() as int) == Err::<Seq<(int, int)>, TokenError>(e),
        }),
{
    let b = line.as_bytes();
    let ghost bs = line.spec_bytes();
    let ghost cap = out@.len() as int;
    let ghost mut done: Seq<(int, int)> = Seq::empty();
    proof {
        vstd::utf8::encode_utf8_valid_utf8(line@);
        lemma_boundary(bs, 0);
        vstd::utf8::is_char_boundary_start_end_of_seq(bs);
        assert(prepend_spans(done, spans_from(bs, 0, cap)) =~= spans_from(bs, 0, cap)) by {
            match spans_from(bs, 0, cap) {
                Ok(r) => {
                    assert(done + r =~= r);
                },
                Err(e) => {},
            }
        }
    }
    let mut i = 0usize;
    let mut n = 0usize;
    loop
        invariant
            b@ == bs,
            bs == line.spec_bytes(),
            vstd::utf8::valid_utf8(bs),
            out@.len() == cap,
            cap == old(out)@.len(),
            i <= bs.len(),
            n <= cap,
            done.len() == n,
            starts_char(bs, i as int),
            spans_from(bs, 0, cap) == prepend_spans(done, spans_from(bs, i as int, cap - n)),
            forall|k: int| 0 <= k < n ==> (#[trigger] out@[k]).spec_bytes() == bs.subrange(done[k].0, done[k].1),
            forall|k: int| n <= k < cap ==> #[trigger] out@[k] == old(out)@[k],
        decreases bs.len() - i,
    {
        let i0 = i;
        proof {
            lemma_scan_bounds(bs, i as int, 0);
        }
        while i < b.len() && (b[i] == 0x20 || b[i] == 0x09)
            invariant
                b@ == bs,
                i0 <= i <= bs.len(),
                skip_ws(bs, i0 as int) == skip_ws(bs, i as int),
                forall|k: int| i0 <= k < i ==> is_ws_byte(#[trigger] bs[k]),
            decreases bs.len() - i,
        {
            i += 1;
        }
        proof {
            if i > i0 {
                lemma_next_starts_char(bs, i - 1);
            }
            assert(skip_ws(bs, i as int) == i as int);
        }
        if i >= b.len() {
            proof {
                assert(done + Seq::<(int, int)>::empty() =~= done);
            }
            return Ok(n);
        }
        if n >= out.len() {
            return Err(TokenError::TooMany);
        }
        let j = i;
        let c = b[j];
        if c == 0x22 || c == 0x27 {
            let mut k = j + 1;
            proof {
                lemma_scan_bounds(bs, j + 1, c);
            }
            while k < b.len() && b[k] != c
                invariant
                    b@ == bs,
                    j < k <= bs.len(),
                    quote_end(bs, j + 1, c) == quote_end(bs, k as int, c),
                decreases bs.len() - k,
            {
                k += 1;
            }
            assert(quote_end(bs, k as int, c) == k as int);
            if k >= b.len() {
                return Err(TokenError::UnclosedQuote);
            }
            proof {
                lemma_next_starts_char(bs, j as int);
                lemma_next_starts_char(bs, k as int);
            }
            let tok = sub_str(line, j + 1, k);
            out[n] = tok;
            proof {
                let sp = (j + 1, k as int);
                match spans_from(bs, k + 1, cap - n - 1) {
                    Ok(r) => {
                        assert(done.push(sp) + r =~= done + (seq![sp] + r));
                    },
                    Err(e) => {},
                }
                done = done.push(sp);
            }
            n += 1;
            i = k + 1;
        } else {
            let mut k = j;
            proof {
                lemma_scan_bounds(bs, j as int, 0);
            }
            while k < b.len() && !(b[k] == 0x20 || b[k] == 0x09) && !(b[k] == 0x22 || b[k] == 0x27)
                invariant
                    b@ == bs,
                    j <= k <= bs.len(),
                    word_end(bs, j as int) == word_end(bs, k as int),
                decreases bs.len() - k,
            {
                k += 1;
            }
            assert(word_end(bs, k as int) == k as int);
            assert(k > j);
            let tok = sub_str(line, j, k);
            out[n] = tok;
            proof {
                let sp = (j as int, k as int);
                match spans_from(bs, k as int, cap - n - 1) {
                    Ok(r) => {
                        assert(done.push(sp) + r =~= done + (seq![sp] + r));
                    },
                    Err(e) => {},
                }
                done = done.push(sp);
            }
            n += 1;
            i = k;
        }
    }
}

/// A shell command: its name, a line of help, and what runs it.
#[derive(Clone, Copy)]
pub struct Command<F> {
    pub name: &'static str,
    pub help: &'static str,
    pub run: F,
}

/// Table subsystems register into. Lookup is linear; N is small.
pub struct Registry<F> {
    cmds: Vec<Command<F>>,
}

impl<F> View for Registry<F> {
    type V = Seq<Command<F>>;

    /// The registered commands, in registration order.
    closed spec fn view(&self) -> Seq<Command<F>> {
        self.cmds@
    }
}

/// Command `c` answers to `name`.
pub open spec fn named<F>(c: Command<F>, name: Seq<char>) -> bool {
    c.name@ == name
}

impl<F: Copy> Registry<F> {
    /// At most `MAX_COMMANDS` entries, no name twice.
    pub closed spec fn wf(&self) -> bool {
        &&& self.cmds@.len() <= MAX_COMMANDS
        &&& forall|i: int, j: int| 0 <= i < j < self.cmds@.len() ==> self.cmds@[i].name@ != self.cmds@[j].name@
    }

    pub fn new() -> (r: Self)
        ensures
            r.wf(),
            r@ == Seq::<Command<F>>::empty(),
    {
        Registry { cmds: Vec::new() }
    }

    pub fn len(&self) -> (r: usize)
        ensures
            r == self@.len(),
    {
        self.cmds.len()
    }

    pub fn is_empty(&self) -> (r: bool)
        ensures
            r == (self@.len() == 0),
    {
        self.cmds.len() == 0
    }

    /// `false` if full or the name is already present.
    pub fn register(&mut self, cmd: Command<F>) -> (r: bool)
        requires
            old(self).wf(),
        ensures
            final(self).wf(),
            r == (old(self)@.len() < MAX_COMMANDS && forall|i: int|
                0 <= i < old(self)@.len() ==> !named(#[trigger] old(self)@[i], cmd.name@)),
            r ==> final(self)@ == old(self)@.push(cmd),
            !r ==> final(self)@ == old(self)@,
    {
        if self.cmds.len() >= MAX_COMMANDS {
            return false;
        }
        if self.lookup(cmd.name).is_some() {
            return false;
        }
        self.cmds.push(cmd);
        true
    }

    /// The command registered under `name`.
    pub fn lookup(&self, name: &str) -> (r: Option<Command<F>>)
        requires
            self.wf(),
        ensures
            r is None <==> forall|i: int| 0 <= i < self@.len() ==> !named(#[trigger] self@[i], name@),
            r matches Some(c) ==> exists|i: int| 0 <= i < self@.len() && self@[i] == c && #[trigger] named(c, name@),
    {
        let mut i = 0usize;
        while i < self.cmds.len()
            invariant
                i <= self.cmds@.len(),
                forall|j: int| 0 <= j < i ==> !named(#[trigger] self.cmds@[j], name@),
            decreases self.cmds@.len() - i,
        {
            let c = self.cmds[i];
            if crate::log::str_eq(c.name, name) {
                assert(self@[i as int] == c && named(c, name@));
                return Some(c);
            }
            i += 1;
        }
        None
    }

    pub fn get(&self, i: usize) -> (r: Option<Command<F>>)
        ensures
            i < self@.len() ==> r == Some(self@[i as int]),
            i >= self@.len() ==> r is None,
    {
        if i >= self.cmds.len() {
            return None;
        }
        Some(self.cmds[i])
    }
}

} // verus!
