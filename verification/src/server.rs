//! The decisions of the SQL language server: the edit that formatting a
//! document produces, the span of a diagnostic, how requests and notifications
//! are routed, and when pending lint work is published.
use vstd::prelude::*;
use crate::formatter::{format_sql, formatted};
use crate::linter::Diagnostic;
use crate::text::{
    chars_of, is_blank, push_str, slice_chars, string_of, str_eq, trim, utf8_len, utf8_len_chars,
};

verus! {

/// The pieces of `s` as `str::split_inclusive('\n')` gives them: each ends with
/// its line break, except a last piece without one.
pub open spec fn line_pieces(s: Seq<char>) -> Seq<Seq<char>>
    decreases s.len(),
{
    if s.len() == 0 {
        seq![]
    } else {
        let p = line_pieces(s.drop_last());
        if p.len() == 0 || p.last().last() == '\n' {
            p.push(seq![s.last()])
        } else {
            p.update(p.len() - 1, p.last().push(s.last()))
        }
    }
}

/// A line without its line ending: a final `\n`, and a `\r` just before it.
pub open spec fn line_of_piece(piece: Seq<char>) -> Seq<char> {
    if piece.len() > 0 && piece.last() == '\n' {
        let body = piece.drop_last();
        if body.len() > 0 && body.last() == '\r' {
            body.drop_last()
        } else {
            body
        }
    } else {
        piece
    }
}

/// The lines of `s`, as `str::lines` gives them.
pub open spec fn lines(s: Seq<char>) -> Seq<Seq<char>> {
    line_pieces(s).map_values(|p: Seq<char>| line_of_piece(p))
}

/// A replacement of a whole document: from its start to the end position
/// given here, by `new_text`.
pub struct FormattingEdit {
    pub end_line: u32,
    pub end_character: u32,
    pub new_text: String,
}

/// The end position that the server gives for a document: the index of its
/// last line, and the UTF-8 length of that line.
pub open spec fn document_end(source: Seq<char>) -> (u32, u32) {
    let ls = lines(source);
    let line = if ls.len() == 0 {
        0
    } else {
        ls.len() - 1
    };
    let character = if ls.len() == 0 {
        0
    } else {
        utf8_len(ls.last())
    };
    (line as u32, character as u32)
}

fn last_piece_start(s: &Vec<char>) -> (r: (usize, usize))
    ensures
        r.0 == line_pieces(s@).len(),
        r.0 > 0 ==> r.1 <= s@.len() && line_pieces(s@).last() == s@.subrange(
            r.1 as int,
            s@.len() as int,
        ),
{
    let mut count: usize = 0;
    let mut start: usize = 0;
    let mut i: usize = 0;
    while i < s.len()
        invariant
            i <= s@.len(),
            count <= i,
            count == line_pieces(s@.take(i as int)).len(),
            count > 0 ==> start < i && line_pieces(s@.take(i as int)).last() == s@.subrange(
                start as int,
                i as int,
            ),
        decreases s@.len() - i,
    {
        let ghost pre = s@.take(i as int);
        assert(s@.take(i + 1).drop_last() =~= pre);
        assert(s@.take(i + 1).last() == s@[i as int]);
        if count == 0 || s[i - 1] == '\n' {
            proof {
                if count > 0 {
                    assert(line_pieces(pre).last().last() == s@[i - 1]);
                }
            }
            count = count + 1;
            start = i;
            assert(s@.subrange(start as int, i + 1) =~= seq![s@[i as int]]);
        } else {
            assert(line_pieces(pre).last().last() == s@[i - 1]);
            assert(s@.subrange(start as int, i + 1) =~= s@.subrange(start as int, i as int).push(
                s@[i as int],
            ));
        }
        i = i + 1;
    }
    assert(s@.take(i as int) =~= s@);
    (count, start)
}

/// The line of a piece, computed from its characters.
fn line_of_piece_chars(piece: &Vec<char>) -> (r: Vec<char>)
    ensures
        r@ == line_of_piece(piece@),
{
    let n = piece.len();
    if n > 0 && piece[n - 1] == '\n' {
        if n > 1 && piece[n - 2] == '\r' {
            slice_chars(piece, 0, n - 2)
        } else {
            slice_chars(piece, 0, n - 1)
        }
    } else {
        slice_chars(piece, 0, n)
    }
}

/// The position where the server ends a whole-document edit of `source`.
pub fn document_end_of(source: &Vec<char>) -> (r: (u32, u32))
    ensures
        r == document_end(source@),
{
    let (count, start) = last_piece_start(source);
    if count == 0 {
        return (0, 0);
    }
    let piece = slice_chars(source, start, source.len());
    let line = line_of_piece_chars(&piece);
    let len = utf8_len_chars(&line);
    proof {
        let ls = lines(source@);
        assert(ls.len() == line_pieces(source@).len());
        assert(ls.last() == line_of_piece(line_pieces(source@).last()));
    }
    ((count - 1) as u32, len as u32)
}

/// The edit that formatting `source` calls for: none for a blank document or
/// one that is already formatted, otherwise its replacement by the formatted
/// text.
pub open spec fn formatting_edit_for(source: Seq<char>) -> Option<(u32, u32, Seq<char>)> {
    if trim(source).len() == 0 || formatted(source) == source {
        None
    } else {
        let (line, character) = document_end(source);
        Some((line, character, formatted(source)))
    }
}

/// The whole-document edit for a formatting request on `source`.
pub fn formatting_edit(source: &str) -> (r: Option<FormattingEdit>)
    ensures
        match formatting_edit_for(source@) {
            Some((line, character, text)) => r matches Some(e) && e.end_line == line
                && e.end_character == character && e.new_text@ == text,
            None => r is None,
        },
{
    let chars = chars_of(source);
    if is_blank(&chars) {
        return None;
    }
    let new_text = format_sql(source);
    if str_eq(new_text.as_str(), source) {
        return None;
    }
    let (end_line, end_character) = document_end_of(&chars);
    Some(FormattingEdit { end_line, end_character, new_text })
}

/// The range that the server reports for a diagnostic: one character from its
/// position (the end column wraps around at `u32::MAX`).
pub fn diagnostic_span(d: &Diagnostic) -> (r: (u32, u32, u32, u32))
    ensures
        r == (d.line, d.col, d.line, d.col.wrapping_add(1)),
{
    (d.line, d.col, d.line, d.col.wrapping_add(1))
}

/// What the server does with a request.
pub enum RequestRoute {
    Formatting,
    MethodNotFound(String),
}

/// Routes a request by its method: formatting, or an error that names the
/// method.
pub fn route_request(method: &str) -> (r: RequestRoute)
    ensures
        method@ == "textDocument/formatting"@ ==> r is Formatting,
        method@ != "textDocument/formatting"@ ==> (r matches RequestRoute::MethodNotFound(m)
            && m@ == "method not implemented: "@ + method@),
{
    if str_eq(method, "textDocument/formatting") {
        RequestRoute::Formatting
    } else {
        let mut m: Vec<char> = Vec::new();
        push_str(&mut m, "method not implemented: ");
        push_str(&mut m, method);
        RequestRoute::MethodNotFound(string_of(&m))
    }
}

/// What the server does with a notification.
pub enum NotificationRoute {
    DidOpen,
    DidChange,
    Ignore,
}

/// Routes a notification by its method.
pub fn route_notification(method: &str) -> (r: NotificationRoute)
    ensures
        method@ == "textDocument/didOpen"@ ==> r is DidOpen,
        method@ != "textDocument/didOpen"@ && method@ == "textDocument/didChange"@ ==> r is DidChange,
        method@ != "textDocument/didOpen"@ && method@ != "textDocument/didChange"@ ==> r is Ignore,
{
    if str_eq(method, "textDocument/didOpen") {
        NotificationRoute::DidOpen
    } else if str_eq(method, "textDocument/didChange") {
        NotificationRoute::DidChange
    } else {
        NotificationRoute::Ignore
    }
}

/// How long after the last change a document is linted, in milliseconds.
pub const DEBOUNCE_MS: u64 = 300;

/// How long the lint worker waits when nothing is pending, in milliseconds.
pub const IDLE_WAIT_MS: u64 = 60000;

/// The lint worker's state: the latest document waiting to be linted, and the
/// time (in milliseconds) at which it is due.
pub struct LintDebouncer<T> {
    pub pending: Option<T>,
    pub deadline: Option<u64>,
}

/// What the lint worker observed while waiting.
pub enum WorkerEvent<T> {
    Received(T),
    TimedOut,
    Disconnected,
}

/// What the lint worker does next.
pub enum WorkerAction<T> {
    Wait,
    Publish(T),
    Stop,
}

/// The state and action after `event` at time `now`:
///  * a received document replaces the pending one and is due `DEBOUNCE_MS`
///    later;
///  * a time-out publishes the pending document, if any, and clears the state;
///  * a disconnection stops the worker.
/// The time a document received at `now` is due: `DEBOUNCE_MS` later, or the
/// last representable time.
pub open spec fn due_at(now: u64) -> u64 {
    if now + DEBOUNCE_MS > u64::MAX {
        u64::MAX
    } else {
        (now + DEBOUNCE_MS) as u64
    }
}

pub open spec fn debounce_step<T>(
    pending: Option<T>,
    deadline: Option<u64>,
    event: WorkerEvent<T>,
    now: u64,
) -> (Option<T>, Option<u64>, WorkerAction<T>) {
    match event {
        WorkerEvent::Received(doc) => (
            Some(doc),
            Some(due_at(now)),
            WorkerAction::Wait,
        ),
        WorkerEvent::TimedOut => match pending {
            Some(doc) => (None, None, WorkerAction::Publish(doc)),
            None => (None, deadline, WorkerAction::Wait),
        },
        WorkerEvent::Disconnected => (pending, deadline, WorkerAction::Stop),
    }
}

/// How long to wait at time `now`: until the deadline (not below zero), or
/// `IDLE_WAIT_MS` when there is none.
pub open spec fn wait_ms(deadline: Option<u64>, now: u64) -> u64 {
    match deadline {
        Some(d) => if d > now {
            (d - now) as u64
        } else {
            0
        },
        None => IDLE_WAIT_MS,
    }
}

impl<T> LintDebouncer<T> {
    /// A worker with nothing pending.
    pub fn new() -> (r: Self)
        ensures
            r.pending is None,
            r.deadline is None,
    {
        LintDebouncer { pending: None, deadline: None }
    }

    /// How long to wait for the next document at time `now`.
    pub fn timeout_ms(&self, now: u64) -> (r: u64)
        ensures
            r == wait_ms(self.deadline, now),
    {
        match self.deadline {
            Some(d) => d.saturating_sub(now),
            None => IDLE_WAIT_MS,
        }
    }

    /// Takes in what happened while waiting and says what to do.
    pub fn step(&mut self, event: WorkerEvent<T>, now: u64) -> (action: WorkerAction<T>)
        ensures
            (final(self).pending, final(self).deadline, action) == debounce_step(
                old(self).pending,
                old(self).deadline,
                event,
                now,
            ),
    {
        match event {
            WorkerEvent::Received(doc) => {
                self.pending = Some(doc);
                self.deadline = Some(now.saturating_add(DEBOUNCE_MS));
                WorkerAction::Wait
            },
            WorkerEvent::TimedOut => match self.pending.take() {
                Some(doc) => {
                    self.deadline = None;
                    WorkerAction::Publish(doc)
                },
                None => WorkerAction::Wait,
            },
            WorkerEvent::Disconnected => WorkerAction::Stop,
        }
    }
}

/// A document that is already formatted gets no edit.
pub proof fn law_formatted_document_gets_no_edit(source: Seq<char>)
    requires
        formatted(source) == source,
    ensures
        formatting_edit_for(source) is None,
{
}

/// The state after the worker receives each document of `burst` (with the
/// time it arrives) in turn, and whether it only waited meanwhile.
pub open spec fn receive_burst<T>(
    pending: Option<T>,
    deadline: Option<u64>,
    burst: Seq<(T, u64)>,
) -> (Option<T>, Option<u64>, bool)
    decreases burst.len(),
{
    if burst.len() == 0 {
        (pending, deadline, true)
    } else {
        let (p, d, quiet) = receive_burst(pending, deadline, burst.drop_last());
        let (p2, d2, a) = debounce_step(p, d, WorkerEvent::Received(burst.last().0), burst.last().1);
        (p2, d2, quiet && a == WorkerAction::<T>::Wait)
    }
}

/// Of a burst of documents, only the latest is linted: while they arrive the
/// worker publishes nothing, the latest is due `DEBOUNCE_MS` after it came,
/// the time-out then publishes it, and a further time-out publishes nothing.
pub proof fn law_latest_document_is_linted<T>(
    pending: Option<T>,
    deadline: Option<u64>,
    burst: Seq<(T, u64)>,
    t_out: u64,
    t_next: u64,
)
    requires
        burst.len() > 0,
    ensures
        ({
            let (p, d, quiet) = receive_burst(pending, deadline, burst);
            let (p2, d2, a) = debounce_step(p, d, WorkerEvent::TimedOut, t_out);
            let (_, _, a2) = debounce_step(p2, d2, WorkerEvent::TimedOut, t_next);
            &&& quiet
            &&& p == Some(burst.last().0)
            &&& d == Some(due_at(burst.last().1))
            &&& a == WorkerAction::Publish(burst.last().0)
            &&& a2 == WorkerAction::<T>::Wait
        }),
    decreases burst.len(),
{
    if burst.len() > 1 {
        law_latest_document_is_linted(pending, deadline, burst.drop_last(), t_out, t_next);
    }
    let prev = receive_burst(pending, deadline, burst.drop_last());
    let step = debounce_step(
        prev.0,
        prev.1,
        WorkerEvent::Received(burst.last().0),
        burst.last().1,
    );
    assert(step.2 == WorkerAction::<T>::Wait);
    assert(receive_burst(pending, deadline, burst) == (step.0, step.1, prev.2 && step.2
        == WorkerAction::<T>::Wait));
}

/// A document is linted once: after a publication, the next time-out
/// publishes nothing.
pub proof fn law_document_is_linted_once<T>(pending: Option<T>, deadline: Option<u64>, t1: u64, t2: u64)
    ensures
        ({
            let (p1, d1, _) = debounce_step(pending, deadline, WorkerEvent::TimedOut, t1);
            let (_, _, a2) = debounce_step(p1, d1, WorkerEvent::TimedOut, t2);
            a2 == WorkerAction::<T>::Wait
        }),
{
}

/// After a document arrives, the worker waits no longer than the debounce delay.
pub proof fn law_wait_is_bounded_after_change<T>(
    pending: Option<T>,
    deadline: Option<u64>,
    doc: T,
    t: u64,
    now: u64,
)
    requires
        t <= now,
    ensures
        ({
            let (_, d1, _) = debounce_step(pending, deadline, WorkerEvent::Received(doc), t);
            wait_ms(d1, now) <= DEBOUNCE_MS
        }),
{
}

} // verus!
