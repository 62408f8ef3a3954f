//! The framing of language-server messages on a byte stream: a
//! `Content-Length` header, a blank line, then the message.
use vstd::prelude::*;
use crate::text::{chars_of, extend_chars, push_str, slice_chars, string_of, utf8_len, utf8_len_chars};

verus! {

/// The decimal digit for `d < 10`.
pub open spec fn digit_char(d: nat) -> char {
    ((48 + d) as u8) as char
}

/// The decimal representation of `n`, without leading zeros.
pub open spec fn decimal(n: nat) -> Seq<char>
    decreases n,
{
    if n < 10 {
        seq![digit_char(n)]
    } else {
        decimal(n / 10).push(digit_char(n % 10))
    }
}

/// The decimal representation of `n`.
pub fn decimal_chars(n: u128) -> (r: Vec<char>)
    ensures
        r@ == decimal(n as nat),
    decreases n,
{
    if n < 10 {
        let mut v: Vec<char> = Vec::new();
        v.push(((n as u8) + 48) as char);
        v
    } else {
        let mut v = decimal_chars(n / 10);
        v.push((((n % 10) as u8) + 48) as char);
        v
    }
}

/// The framed form of `msg`: a `Content-Length` header with its UTF-8 length,
/// a blank line, then `msg`.
pub open spec fn framed(msg: Seq<char>) -> Seq<char> {
    "Content-Length: "@ + decimal(utf8_len(msg)) + "\r\n\r\n"@ + msg
}

/// Frames `msg` for sending.
pub fn frame_message(msg: &str) -> (r: String)
    ensures
        r@ == framed(msg@),
{
    let m = chars_of(msg);
    let len = utf8_len_chars(&m);
    let digits = decimal_chars(len);
    let mut v: Vec<char> = Vec::new();
    push_str(&mut v, "Content-Length: ");
    extend_chars(&mut v, &digits);
    push_str(&mut v, "\r\n\r\n");
    extend_chars(&mut v, &m);
    string_of(&v)
}

/// `s` without the `\r` and `\n` characters at its end.
pub open spec fn trim_line_end(s: Seq<char>) -> Seq<char>
    decreases s.len(),
{
    if s.len() > 0 && (s.last() == '\r' || s.last() == '\n') {
        trim_line_end(s.drop_last())
    } else {
        s
    }
}

/// Whether every character of `s` is an ASCII digit.
pub open spec fn all_digits(s: Seq<char>) -> bool {
    forall|i: int| 0 <= i < s.len() ==> '0' <= #[trigger] s[i] && s[i] <= '9'
}

/// The number that the ASCII digits `s` spell.
pub open spec fn digits_value(s: Seq<char>) -> nat
    decreases s.len(),
{
    if s.len() == 0 {
        0
    } else {
        digits_value(s.drop_last()) * 10 + ((s.last() as u32) - 48) as nat
    }
}

/// What `usize::from_str` gives for `s`: an optional `+`, then at least one
/// ASCII digit and nothing else, with a value that fits in `usize`.
pub open spec fn parse_usize(s: Seq<char>) -> Option<nat> {
    let body = if s.len() > 0 && s[0] == '+' {
        s.drop_first()
    } else {
        s
    };
    if body.len() > 0 && all_digits(body) && digits_value(body) <= usize::MAX {
        Some(digits_value(body))
    } else {
        None
    }
}

/// A line of a message header.
pub enum HeaderLine {
    /// The blank line that ends the header.
    End,
    /// A `Content-Length` line, with its value when that is a number.
    ContentLength(Option<usize>),
    /// Any other header line.
    Other,
}

/// The meaning of a header line, with `\r` and `\n` removed from its end.
pub open spec fn header_line(line: Seq<char>) -> HeaderLine {
    let l = trim_line_end(line);
    if l.len() == 0 {
        HeaderLine::End
    } else if l.len() >= ("Content-Length: "@).len() && l.subrange(0, ("Content-Length: "@).len() as int)
        == "Content-Length: "@ {
        match parse_usize(l.subrange(("Content-Length: "@).len() as int, l.len() as int)) {
            Some(n) => HeaderLine::ContentLength(Some(n as usize)),
            None => HeaderLine::ContentLength(None),
        }
    } else {
        HeaderLine::Other
    }
}

/// A prefix of an ASCII digit string spells a number no larger than the whole.
proof fn lemma_digits_value_prefix(s: Seq<char>, k: int)
    requires
        0 <= k <= s.len(),
        all_digits(s),
    ensures
        digits_value(s.take(k)) <= digits_value(s),
    decreases s.len() - k,
{
    if k < s.len() {
        lemma_digits_value_prefix(s.drop_last(), k);
        assert(s.drop_last().take(k) =~= s.take(k));
        assert(all_digits(s.drop_last()));
    } else {
        assert(s.take(k) =~= s);
    }
}

fn parse_usize_chars(s: &Vec<char>) -> (r: Option<usize>)
    ensures
        match parse_usize(s@) {
            Some(n) => r == Some(n as usize),
            None => r is None,
        },
{
    let start: usize = if s.len() > 0 && s[0] == '+' {
        1
    } else {
        0
    };
    let body = slice_chars(s, start, s.len());
    assert(body@ =~= if s@.len() > 0 && s@[0] == '+' {
        s@.drop_first()
    } else {
        s@
    });
    if body.len() == 0 {
        return None;
    }
    let mut acc: u128 = 0;
    let mut i: usize = 0;
    while i < body.len()
        invariant
            body@ == (if s@.len() > 0 && s@[0] == '+' {
                s@.drop_first()
            } else {
                s@
            }),
            body@.len() > 0,
            i <= body@.len(),
            all_digits(body@.take(i as int)),
            acc == digits_value(body@.take(i as int)),
            acc <= usize::MAX,
        decreases body@.len() - i,
    {
        let c = body[i];
        if !('0' <= c && c <= '9') {
            assert(body@[i as int] == c);
            assert(!all_digits(body@));
            return None;
        }
        let d = (c as u32) - 48;
        assert(body@.take(i + 1).drop_last() =~= body@.take(i as int));
        assert(body@.take(i + 1).last() == c);
        acc = acc * 10 + d as u128;
        assert(all_digits(body@.take(i + 1)));
        i = i + 1;
        if acc > usize::MAX as u128 {
            proof {
                if all_digits(body@) {
                    lemma_digits_value_prefix(body@, i as int);
                }
            }
            return None;
        }
    }
    assert(body@.take(i as int) =~= body@);
    Some(acc as usize)
}

fn trim_line_end_chars(s: &Vec<char>) -> (r: Vec<char>)
    ensures
        r@ == trim_line_end(s@),
{
    let mut k = s.len();
    assert(s@.subrange(0, k as int) =~= s@);
    while k > 0 && (s[k - 1] == '\r' || s[k - 1] == '\n')
        invariant
            k <= s@.len(),
            trim_line_end(s@) == trim_line_end(s@.subrange(0, k as int)),
        decreases k,
    {
        assert(s@.subrange(0, k as int).drop_last() =~= s@.subrange(0, k - 1));
        k = k - 1;
    }
    slice_chars(s, 0, k)
}

/// Reads one line of a message header.
pub fn classify_header_line(line: &str) -> (r: HeaderLine)
    ensures
        r == header_line(line@),
{
    let raw = chars_of(line);
    let l = trim_line_end_chars(&raw);
    if l.len() == 0 {
        return HeaderLine::End;
    }
    let prefix = chars_of("Content-Length: ");
    if l.len() >= prefix.len() && crate::text::matches_at(&l, &prefix, 0) {
        let rest = slice_chars(&l, prefix.len(), l.len());
        HeaderLine::ContentLength(parse_usize_chars(&rest))
    } else {
        HeaderLine::Other
    }
}

/// The digit for `d` is the character with code `48 + d`.
proof fn lemma_digit_char(d: nat)
    requires
        d < 10,
    ensures
        digit_char(d) as u32 == 48 + d,
        '0' <= digit_char(d) <= '9',
{
    let b = (48 + d) as u8;
    assert(b as u32 == 48 + d);
    assert((b as char) as u32 == b as u32);
}

/// The decimal form of a number is made of digits and spells that number.
proof fn lemma_decimal_digits(n: nat)
    ensures
        decimal(n).len() > 0,
        all_digits(decimal(n)),
        digits_value(decimal(n)) == n,
    decreases n,
{
    lemma_digit_char(n % 10);
    if n < 10 {
        assert(decimal(n).drop_last().len() == 0);
        assert(digits_value(decimal(n).drop_last()) == 0);
    }
    if n >= 10 {
        lemma_decimal_digits(n / 10);
        let d = decimal(n);
        assert(d.drop_last() =~= decimal(n / 10));
        assert forall|i: int| 0 <= i < d.len() implies '0' <= #[trigger] d[i] && d[i] <= '9' by {
            if i < d.len() - 1 {
                assert(d[i] == decimal(n / 10)[i]);
            }
        }
    }
}

/// The header that framing writes reads back as the length it holds, with or
/// without its line ending.
pub proof fn law_length_header_round_trips(n: nat)
    requires
        n <= usize::MAX,
    ensures
        header_line("Content-Length: "@ + decimal(n)) == HeaderLine::ContentLength(Some(n as usize)),
        header_line("Content-Length: "@ + decimal(n) + "\r\n"@) == HeaderLine::ContentLength(
            Some(n as usize),
        ),
{
    lemma_decimal_digits(n);
    reveal_strlit("\r\n");
    reveal_strlit("Content-Length: ");
    let line = "Content-Length: "@ + decimal(n);
    let last = decimal(n).last();
    assert(line.last() == last);
    assert('0' <= last && last <= '9');
    assert(trim_line_end(line) == line);
    let with_end = line + "\r\n"@;
    assert(with_end.drop_last() =~= line + seq!['\r']);
    assert((line + seq!['\r']).drop_last() =~= line);
    assert("\r\n"@ =~= seq!['\r', '\n']);
    assert(with_end.last() == '\n');
    assert(trim_line_end(with_end) == trim_line_end(line + seq!['\r']));
    assert((line + seq!['\r']).last() == '\r');
    assert(trim_line_end(line + seq!['\r']) == trim_line_end(line));
    assert(trim_line_end(with_end) == line);
    assert(line.subrange(0, ("Content-Length: "@).len() as int) =~= "Content-Length: "@);
    assert(line.subrange(("Content-Length: "@).len() as int, line.len() as int) =~= decimal(n));
    assert(decimal(n)[0] != '+');
}

/// A framed message reads back as it was sent: its first line (ending at its
/// only line break) is the `Content-Length` header with the UTF-8 length of the
/// message, the next line is blank and ends the header, and what follows is
/// the message itself.
pub proof fn law_framed_message_reads_back(msg: Seq<char>)
    requires
        utf8_len(msg) <= usize::MAX,
    ensures
        ({
            let head = "Content-Length: "@ + decimal(utf8_len(msg)) + "\r\n"@;
            &&& framed(msg) == head + "\r\n"@ + msg
            &&& head.last() == '\n'
            &&& forall|i: int| 0 <= i < head.len() - 1 ==> #[trigger] head[i] != '\n'
            &&& header_line(head) == HeaderLine::ContentLength(Some(utf8_len(msg) as usize))
            &&& header_line("\r\n"@) == HeaderLine::End
        }),
{
    let n = utf8_len(msg);
    law_length_header_round_trips(n);
    lemma_decimal_digits(n);
    reveal_strlit("\r\n");
    reveal_strlit("\r\n\r\n");
    reveal_strlit("Content-Length: ");
    let d = decimal(n);
    let head = "Content-Length: "@ + d + "\r\n"@;
    assert("\r\n\r\n"@ =~= "\r\n"@ + "\r\n"@);
    assert(framed(msg) =~= head + "\r\n"@ + msg);
    let k = ("Content-Length: "@).len();
    assert forall|i: int| 0 <= i < head.len() - 1 implies #[trigger] head[i] != '\n' by {
        if i < k {
            assert(head[i] == ("Content-Length: "@)[i]);
        } else if i < k + d.len() {
            assert(head[i] == d[i - k]);
        } else {
            assert(head[i] == '\r');
        }
    }
    let end = "\r\n"@;
    assert(end =~= seq!['\r', '\n']);
    assert(end.drop_last() =~= seq!['\r']);
    assert(seq!['\r'].drop_last() =~= Seq::<char>::empty());
    assert(trim_line_end(seq!['\r']) == trim_line_end(Seq::<char>::empty()));
    assert(trim_line_end(end) =~= Seq::<char>::empty());
}

/// What reading one more header line leads to, with `length` the body length
/// read so far (0 before any `Content-Length`): the blank line ends the header
/// and the body of `length` bytes follows; a `Content-Length` line sets the
/// length; a `Content-Length` that is not a number is refused; any other line
/// is skipped.
pub enum HeaderStep {
    Continue(usize),
    Body(usize),
    Invalid,
}

/// The step that `line` makes when the body length read so far is `length`.
pub open spec fn header_step(length: usize, line: Seq<char>) -> HeaderStep {
    match header_line(line) {
        HeaderLine::End => HeaderStep::Body(length),
        HeaderLine::ContentLength(Some(n)) => HeaderStep::Continue(n),
        HeaderLine::ContentLength(None) => HeaderStep::Invalid,
        HeaderLine::Other => HeaderStep::Continue(length),
    }
}

/// Reads one header line of a message.
pub fn read_header_line(length: usize, line: &str) -> (r: HeaderStep)
    ensures
        r == header_step(length, line@),
{
    match classify_header_line(line) {
        HeaderLine::End => HeaderStep::Body(length),
        HeaderLine::ContentLength(Some(n)) => HeaderStep::Continue(n),
        HeaderLine::ContentLength(None) => HeaderStep::Invalid,
        HeaderLine::Other => HeaderStep::Continue(length),
    }
}

/// A reader of framed messages reads the message back: from any length, the
/// first line of a framed message sets the length to the message's UTF-8
/// length, and the blank line after it hands over to a body of exactly that
/// many bytes, which is the message.
pub proof fn law_framed_header_gives_body_length(msg: Seq<char>, start: usize)
    requires
        utf8_len(msg) <= usize::MAX,
    ensures
        ({
            let n = utf8_len(msg) as usize;
            let head = "Content-Length: "@ + decimal(utf8_len(msg)) + "\r\n"@;
            &&& framed(msg) == head + "\r\n"@ + msg
            &&& header_step(start, head) == HeaderStep::Continue(n)
            &&& header_step(n, "\r\n"@) == HeaderStep::Body(n)
        }),
{
    law_framed_message_reads_back(msg);
}

} // verus!
