//! The line protocol: one message per line.
//!
//! Inbound lines are cleaned before they become messages: C0 control
//! characters are dropped, an escape character swallows the sequence that
//! follows it, and leading and trailing white space is trimmed. A line that
//! is empty after cleaning carries no message.
use vstd::prelude::*;

use crate::codec::Decoded;

verus! {

/// The terminator written after each outbound message.
pub const LINE_FEED: char = '\n';

/// The escape character that opens a control sequence.
pub const ESCAPE: char = '\u{1b}';

/// An ASCII control character: `0x00..=0x1f` or `0x7f`.
pub open spec fn is_control(c: char) -> bool {
    (c as u32) < 0x20 || c as u32 == 0x7f
}

/// A character with the Unicode `White_Space` property.
pub open spec fn is_white_space(c: char) -> bool {
    let u = c as u32;
    ||| 0x09 <= u <= 0x0d
    ||| u == 0x20
    ||| u == 0x85
    ||| u == 0xa0
    ||| u == 0x1680
    ||| 0x2000 <= u <= 0x200a
    ||| u == 0x2028
    ||| u == 0x2029
    ||| u == 0x202f
    ||| u == 0x205f
    ||| u == 0x3000
}

/// A character that continues a control sequence (`0x20..=0x3f`).
pub open spec fn continues_sequence(c: char) -> bool {
    0x20 <= c as u32 <= 0x3f
}

/// Where the scanner stands between two characters of a line.
#[derive(Clone, Copy)]
pub enum Scan {
    /// Ordinary text: printable characters are kept.
    Text,
    /// Just after an escape character: the next character is dropped.
    Escape,
    /// Inside a control sequence: continuation characters are dropped, and
    /// the first other character is dropped and ends the sequence.
    Sequence,
}

/// The scanner's state after reading `c` in state `mode`.
pub open spec fn step(mode: Scan, c: char) -> Scan {
    match mode {
        Scan::Text => if c == ESCAPE {
            Scan::Escape
        } else {
            Scan::Text
        },
        Scan::Escape => Scan::Sequence,
        Scan::Sequence => if continues_sequence(c) {
            Scan::Sequence
        } else {
            Scan::Text
        },
    }
}

/// Whether `c`, read in state `mode`, goes to the output.
pub open spec fn keeps(mode: Scan, c: char) -> bool {
    mode is Text && !is_control(c)
}

/// The scanner's state after reading all of `s`.
pub open spec fn scan_state(s: Seq<char>) -> Scan
    decreases s.len(),
{
    if s.len() == 0 {
        Scan::Text
    } else {
        step(scan_state(s.drop_last()), s.last())
    }
}

/// `s` with control characters and control sequences removed.
pub open spec fn stripped(s: Seq<char>) -> Seq<char>
    decreases s.len(),
{
    if s.len() == 0 {
        Seq::empty()
    } else {
        let prev = stripped(s.drop_last());
        if keeps(scan_state(s.drop_last()), s.last()) {
            prev.push(s.last())
        } else {
            prev
        }
    }
}

/// `s` without its leading white space.
pub open spec fn trim_start(s: Seq<char>) -> Seq<char>
    decreases s.len(),
{
    if s.len() > 0 && is_white_space(s[0]) {
        trim_start(s.drop_first())
    } else {
        s
    }
}

/// `s` without its trailing white space.
pub open spec fn trim_end(s: Seq<char>) -> Seq<char>
    decreases s.len(),
{
    if s.len() > 0 && is_white_space(s.last()) {
        trim_end(s.drop_last())
    } else {
        s
    }
}

/// `s` without leading and trailing white space.
pub open spec fn trimmed(s: Seq<char>) -> Seq<char> {
    trim_end(trim_start(s))
}

/// The text that a raw inbound line carries; empty when it carries none.
pub open spec fn decoded(line: Seq<char>) -> Seq<char> {
    trimmed(stripped(line))
}

/// The characters written to the peer for one message.
pub open spec fn framed(message: Seq<char>) -> Seq<char> {
    message.push(LINE_FEED)
}

/// A message that survives a trip through the line protocol unchanged:
/// not empty, no control characters, no white space at either end.
pub open spec fn is_clean(s: Seq<char>) -> bool {
    &&& s.len() > 0
    &&& forall|i: int| 0 <= i < s.len() ==> !is_control(#[trigger] s[i])
    &&& !is_white_space(s[0])
    &&& !is_white_space(s.last())
}

/// Text without control characters passes the scanner untouched, and the
/// scanner ends it in ordinary text.
proof fn lemma_strip_keeps_text(s: Seq<char>)
    requires
        forall|i: int| 0 <= i < s.len() ==> !is_control(#[trigger] s[i]),
    ensures
        stripped(s) == s,
        scan_state(s) is Text,
    decreases s.len(),
{
    if s.len() > 0 {
        let p = s.drop_last();
        assert forall|i: int| 0 <= i < p.len() implies !is_control(#[trigger] p[i]) by {
            assert(p[i] == s[i]);
        }
        lemma_strip_keeps_text(p);
        assert(!is_control(s[s.len() - 1]));
        assert(p.push(s.last()) =~= s);
    }
}

/// Every character that survives stripping of a line made of control and
/// white-space characters is white space.
proof fn lemma_strip_blank(s: Seq<char>)
    requires
        forall|i: int| 0 <= i < s.len() ==> is_control(#[trigger] s[i]) || is_white_space(s[i]),
    ensures
        forall|k: int| 0 <= k < stripped(s).len() ==> is_white_space(#[trigger] stripped(s)[k]),
    decreases s.len(),
{
    if s.len() > 0 {
        let p = s.drop_last();
        assert forall|i: int| 0 <= i < p.len() implies is_control(#[trigger] p[i])
            || is_white_space(p[i]) by {
            assert(p[i] == s[i]);
        }
        lemma_strip_blank(p);
        assert(is_control(s[s.len() - 1]) || is_white_space(s[s.len() - 1]));
        let q = stripped(p);
        if keeps(scan_state(p), s.last()) {
            assert forall|k: int| 0 <= k < q.push(s.last()).len() implies is_white_space(
                #[trigger] q.push(s.last())[k],
            ) by {
                if k < q.len() {
                    assert(q.push(s.last())[k] == q[k]);
                }
            }
        }
    }
}

/// Trimming a sequence of white space leaves nothing.
proof fn lemma_trim_blank(t: Seq<char>)
    requires
        forall|k: int| 0 <= k < t.len() ==> is_white_space(#[trigger] t[k]),
    ensures
        trim_start(t).len() == 0,
    decreases t.len(),
{
    if t.len() > 0 {
        let r = t.drop_first();
        assert forall|k: int| 0 <= k < r.len() implies is_white_space(#[trigger] r[k]) by {
            assert(r[k] == t[k + 1]);
        }
        assert(is_white_space(t[0]));
        lemma_trim_blank(r);
    }
}

/// Decoding is the identity on clean text: a line that holds no control
/// characters and no white space at its ends comes back as it is.
pub proof fn lemma_decode_clean(s: Seq<char>)
    requires
        is_clean(s),
    ensures
        decoded(s) == s,
{
    lemma_strip_keeps_text(s);
    assert(trim_start(s) == s);
    assert(trim_end(s) == s);
}

/// A clean message that is framed and then decoded comes back unchanged.
pub proof fn lemma_round_trip(s: Seq<char>)
    requires
        is_clean(s),
    ensures
        decoded(framed(s)) == s,
{
    let f = framed(s);
    assert(f.drop_last() =~= s);
    lemma_strip_keeps_text(s);
    assert(is_control(f.last()));
    assert(stripped(f) == s);
    lemma_decode_clean(s);
}

/// A line made only of control and white-space characters carries no
/// message.
pub proof fn lemma_blank_line(s: Seq<char>)
    requires
        forall|i: int| 0 <= i < s.len() ==> is_control(#[trigger] s[i]) || is_white_space(s[i]),
    ensures
        decoded(s).len() == 0,
{
    lemma_strip_blank(s);
    lemma_trim_blank(stripped(s));
    assert(trim_start(stripped(s)) =~= Seq::<char>::empty());
}

/// Relies on `String::push`: the character is appended at the end.
#[verifier::external_body]
fn push_char(s: &mut String, c: char)
    ensures
        final(s)@ == old(s)@.push(c),
{
    s.push(c)
}

fn is_control_char(c: char) -> (r: bool)
    ensures
        r == is_control(c),
{
    let u = c as u32;
    u < 0x20 || u == 0x7f
}

fn is_white_space_char(c: char) -> (r: bool)
    ensures
        r == is_white_space(c),
{
    let u = c as u32;
    (0x09 <= u && u <= 0x0d) || u == 0x20 || u == 0x85 || u == 0xa0 || u == 0x1680 || (0x2000
        <= u && u <= 0x200a) || u == 0x2028 || u == 0x2029 || u == 0x202f || u == 0x205f || u
        == 0x3000
}

fn continues_sequence_char(c: char) -> (r: bool)
    ensures
        r == continues_sequence(c),
{
    let u = c as u32;
    0x20 <= u && u <= 0x3f
}

/// The characters of `line` that survive control stripping, in order.
pub fn strip_controls(line: &str) -> (r: Vec<char>)
    ensures
        r@ == stripped(line@),
{
    let mut out: Vec<char> = Vec::new();
    let mut mode = Scan::Text;
    for c in it: line.chars()
        invariant
            it.seq() == line@,
            0 <= it.index() <= line@.len(),
            out@ == stripped(line@.subrange(0, it.index() as int)),
            mode == scan_state(line@.subrange(0, it.index() as int)),
    {
        let ghost pre = line@.subrange(0, it.index() as int);
        let ghost cur = line@.subrange(0, it.index() + 1);
        assert(cur.drop_last() =~= pre);
        assert(cur.last() == c);
        match mode {
            Scan::Text => {
                if c == ESCAPE {
                    mode = Scan::Escape;
                } else if !is_control_char(c) {
                    out.push(c);
                }
            },
            Scan::Escape => {
                mode = Scan::Sequence;
            },
            Scan::Sequence => {
                if !continues_sequence_char(c) {
                    mode = Scan::Text;
                }
            },
        }
    }
    assert(line@.subrange(0, line@.len() as int) =~= line@);
    out
}

/// `chars` with leading and trailing white space removed, as a string.
pub fn trim_chars(chars: &Vec<char>) -> (r: String)
    ensures
        r@ == trimmed(chars@),
{
    let n = chars.len();
    let mut start: usize = 0;
    assert(chars@.subrange(0, n as int) =~= chars@);
    while start < n && is_white_space_char(chars[start])
        invariant
            n == chars@.len(),
            start <= n,
            trim_start(chars@) == trim_start(chars@.subrange(start as int, n as int)),
        decreases n - start,
    {
        let ghost rest = chars@.subrange(start as int, n as int);
        assert(rest.drop_first() =~= chars@.subrange(start + 1, n as int));
        start += 1;
    }
    assert(trim_start(chars@) == chars@.subrange(start as int, n as int));
    let mut end: usize = n;
    while end > start && is_white_space_char(chars[end - 1])
        invariant
            n == chars@.len(),
            start <= end <= n,
            trimmed(chars@) == trim_end(chars@.subrange(start as int, end as int)),
        decreases end - start,
    {
        let ghost part = chars@.subrange(start as int, end as int);
        assert(part.drop_last() =~= chars@.subrange(start as int, end - 1));
        end -= 1;
    }
    let mut out = String::new();
    let mut i: usize = start;
    while i < end
        invariant
            n == chars@.len(),
            start <= i <= end <= n,
            out@ =~= chars@.subrange(start as int, i as int),
        decreases end - i,
    {
        push_char(&mut out, chars[i]);
        i += 1;
    }
    out
}

/// The message carried by one raw inbound line, terminator included, or
/// `None` when nothing is left of it after cleaning.
pub fn decode_line(line: &str) -> (r: Option<String>)
    ensures
        match r {
            Some(m) => m@ == decoded(line@) && decoded(line@).len() > 0,
            None => decoded(line@).len() == 0,
        },
{
    let kept = strip_controls(line);
    let text = trim_chars(&kept);
    if text.as_str().is_empty() {
        None
    } else {
        Some(text)
    }
}

/// The characters to write for `message`: the message, then a line feed.
pub fn encode_line(message: &str) -> (r: String)
    ensures
        r@ == framed(message@),
{
    let mut out = message.to_owned();
    push_char(&mut out, LINE_FEED);
    out
}

/// The outcome of one line read of `count` bytes that left `line` (its
/// terminator included) in the buffer: no bytes means the peer closed the
/// stream; a line that cleans to nothing carries no message yet.
pub fn line_outcome(count: usize, line: &str) -> (r: Decoded)
    ensures
        count == 0 ==> r is Closed,
        count != 0 && decoded(line@).len() == 0 ==> r is WouldBlock,
        count != 0 && decoded(line@).len() != 0 ==> (r matches Decoded::Message(m) && m@ == decoded(
            line@,
        )),
{
    if count == 0 {
        Decoded::Closed
    } else {
        match decode_line(line) {
            Some(message) => Decoded::Message(message),
            None => Decoded::WouldBlock,
        }
    }
}

} // verus!
