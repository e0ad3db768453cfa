//! What is made of the output of external programs: their standard output
//! trimmed, and the lines of their standard error to log.

use vstd::prelude::*;
use vstd::utf8::{valid_utf8, decode_utf8};
use crate::text::{chars_of, push_char, views};

verus! {

/// The text `String::from_utf8_lossy` makes of `bytes`.
pub uninterp spec fn utf8_lossy(bytes: Seq<u8>) -> Seq<char>;

/// `String::from_utf8_lossy`: its documentation says that valid UTF-8 comes
/// out as the text it encodes, and that an invalid sequence becomes the
/// replacement character; the contract claims the first and names the result
/// of the second, a function of the bytes alone.
#[verifier::external_body]
fn decode_lossy(bytes: &[u8]) -> (text: String)
    ensures
        text@ == utf8_lossy(bytes@),
        valid_utf8(bytes@) ==> text@ == decode_utf8(bytes@),
{
    String::from_utf8_lossy(bytes).into_owned()
}

/// Whether `c` has the Unicode White_Space property, as `char::is_whitespace`
/// documents it.
pub open spec fn is_white(c: char) -> bool {
    let v = c as u32;
    ||| 0x09 <= v <= 0x0d
    ||| v == 0x20
    ||| v == 0x85
    ||| v == 0xa0
    ||| v == 0x1680
    ||| 0x2000 <= v <= 0x200a
    ||| v == 0x2028
    ||| v == 0x2029
    ||| v == 0x202f
    ||| v == 0x205f
    ||| v == 0x3000
}

/// Whether `c` is white space.
pub fn white(c: char) -> (b: bool)
    ensures
        b == is_white(c),
{
    let v = c as u32;
    (0x09 <= v && v <= 0x0d) || v == 0x20 || v == 0x85 || v == 0xa0 || v == 0x1680 || (0x2000
        <= v && v <= 0x200a) || v == 0x2028 || v == 0x2029 || v == 0x202f || v == 0x205f || v
        == 0x3000
}

/// `s` without the white space at its start.
pub open spec fn trim_start(s: Seq<char>) -> Seq<char>
    decreases s.len(),
{
    if s.len() > 0 && is_white(s[0]) {
        trim_start(s.drop_first())
    } else {
        s
    }
}

/// `s` without the white space at its end.
pub open spec fn trim_end(s: Seq<char>) -> Seq<char>
    decreases s.len(),
{
    if s.len() > 0 && is_white(s.last()) {
        trim_end(s.drop_last())
    } else {
        s
    }
}

/// `s` without the white space at either end, as `str::trim` makes it.
pub open spec fn trimmed(s: Seq<char>) -> Seq<char> {
    trim_end(trim_start(s))
}

/// Whether `s` holds nothing but white space.
pub open spec fn blank(s: Seq<char>) -> bool {
    forall|i: int| 0 <= i < s.len() ==> is_white(s[i])
}

/// `line` without the carriage return a line ending `\r\n` leaves on it.
pub open spec fn without_return(line: Seq<char>) -> Seq<char> {
    if line.len() > 0 && line.last() == '\r' {
        line.drop_last()
    } else {
        line
    }
}

/// The lines of `rest` after the line `current` begun before it, as
/// `str::lines` cuts them: at every `\n` or `\r\n`, the last line ending
/// optional.
pub open spec fn lines_from(current: Seq<char>, rest: Seq<char>) -> Seq<Seq<char>>
    decreases rest.len(),
{
    if rest.len() == 0 {
        if current.len() == 0 {
            seq![]
        } else {
            seq![current]
        }
    } else if rest[0] == '\n' {
        seq![without_return(current)] + lines_from(seq![], rest.drop_first())
    } else {
        lines_from(current.push(rest[0]), rest.drop_first())
    }
}

/// The lines of `s`.
pub open spec fn text_lines(s: Seq<char>) -> Seq<Seq<char>> {
    lines_from(seq![], s)
}

/// What is logged of `lines` written by `program`: every line that is not
/// blank, after the name of the program.
pub open spec fn relayed(program: Seq<char>, lines: Seq<Seq<char>>) -> Seq<Seq<char>>
    decreases lines.len(),
{
    if lines.len() == 0 {
        seq![]
    } else {
        let rest = relayed(program, lines.drop_first());
        if blank(lines[0]) {
            rest
        } else {
            seq![program + seq![':', ' '] + lines[0]] + rest
        }
    }
}

/// `text` trimmed of its white space.
pub fn trim(text: &Vec<char>) -> (r: String)
    ensures
        r@ == trimmed(text@),
{
    let n = text.len();
    let mut start: usize = 0;
    assert(text@.skip(0) =~= text@);
    while start < n && white(text[start])
        invariant
            n == text@.len(),
            start <= n,
            trim_start(text@) == trim_start(text@.skip(start as int)),
        decreases n - start,
    {
        assert(text@.skip(start as int).drop_first() =~= text@.skip(start + 1));
        start = start + 1;
    }
    assert(trim_start(text@.skip(start as int)) == text@.skip(start as int));
    let mut end: usize = n;
    assert(text@.subrange(start as int, n as int) =~= text@.skip(start as int));
    while end > start && white(text[end - 1])
        invariant
            n == text@.len(),
            start <= end <= n,
            trimmed(text@) == trim_end(text@.subrange(start as int, end as int)),
        decreases end,
    {
        assert(text@.subrange(start as int, end as int).drop_last() =~= text@.subrange(
            start as int,
            end - 1,
        ));
        end = end - 1;
    }
    assert(trim_end(text@.subrange(start as int, end as int)) == text@.subrange(
        start as int,
        end as int,
    ));
    let mut r = String::new();
    let mut i = start;
    assert(text@.subrange(start as int, start as int) =~= seq![]);
    while i < end
        invariant
            start <= i <= end <= n,
            n == text@.len(),
            r@ == text@.subrange(start as int, i as int),
        decreases end - i,
    {
        push_char(&mut r, text[i]);
        i = i + 1;
        assert(text@.subrange(start as int, i as int) =~= text@.subrange(start as int, i - 1).push(
            text@[i - 1],
        ));
    }
    r
}

/// What a program printed: its output as text, lossily decoded, trimmed of
/// white space at either end.
pub fn printed(bytes: &[u8]) -> (text: String)
    ensures
        text@ == trimmed(utf8_lossy(bytes@)),
        valid_utf8(bytes@) ==> text@ == trimmed(decode_utf8(bytes@)),
{
    let decoded = decode_lossy(bytes);
    let characters = chars_of(decoded.as_str());
    trim(&characters)
}

/// Whether `line` holds nothing but white space.
pub fn is_blank(line: &Vec<char>) -> (b: bool)
    ensures
        b == blank(line@),
{
    let mut i: usize = 0;
    while i < line.len()
        invariant
            i <= line@.len(),
            forall|j: int| 0 <= j < i ==> is_white(line@[j]),
        decreases line@.len() - i,
    {
        if !white(line[i]) {
            return false;
        }
        i = i + 1;
    }
    true
}

/// The lines of `text`.
pub fn lines_of(text: &Vec<char>) -> (lines: Vec<Vec<char>>)
    ensures
        lines@.map_values(|line: Vec<char>| line@) == text_lines(text@),
{
    let mut lines: Vec<Vec<char>> = Vec::new();
    let mut current: Vec<char> = Vec::new();
    let mut i: usize = 0;
    assert(text@.skip(0) =~= text@);
    while i < text.len()
        invariant
            i <= text@.len(),
            text_lines(text@) == lines@.map_values(|line: Vec<char>| line@) + lines_from(
                current@,
                text@.skip(i as int),
            ),
        decreases text@.len() - i,
    {
        let ghost rest = text@.skip(i as int);
        assert(rest.drop_first() =~= text@.skip(i + 1));
        let ghost before = lines@.map_values(|line: Vec<char>| line@);
        if text[i] == '\n' {
            let mut line = Vec::new();
            std::mem::swap(&mut line, &mut current);
            let ghost whole = line@;
            let n = line.len();
            if n > 0 && line[n - 1] == '\r' {
                line.pop();
            }
            assert(line@ =~= without_return(whole));
            lines.push(line);
            assert(lines@.map_values(|line: Vec<char>| line@) =~= before.push(
                lines@[lines@.len() - 1]@,
            ));
        } else {
            current.push(text[i]);
        }
        i = i + 1;
    }
    assert(lines_from(current@, text@.skip(i as int)) == (if current@.len() == 0 {
        Seq::<Seq<char>>::empty()
    } else {
        seq![current@]
    }));
    if current.len() > 0 {
        let ghost before = lines@.map_values(|line: Vec<char>| line@);
        lines.push(current);
        assert(lines@.map_values(|line: Vec<char>| line@) =~= before + seq![
            lines@[lines@.len() - 1]@,
        ]);
    } else {
        assert(lines@.map_values(|line: Vec<char>| line@) + Seq::<Seq<char>>::empty()
            =~= lines@.map_values(|line: Vec<char>| line@));
    }
    lines
}

/// What `program` wrote to its standard error, which is where it logs, as
/// the messages to log: every line that is not blank, after the program.
pub fn relay(program: &str, stderr: &[u8]) -> (logged: Vec<String>)
    ensures
        views(logged@) == relayed(program@, text_lines(utf8_lossy(stderr@))),
        valid_utf8(stderr@) ==> views(logged@) == relayed(
            program@,
            text_lines(decode_utf8(stderr@)),
        ),
{
    let written = decode_lossy(stderr);
    let text = chars_of(written.as_str());
    relay_text(program, &text)
}

/// The messages to log of the text `program` wrote to its standard error:
/// every line that is not blank, after the program.
pub fn relay_text(program: &str, text: &Vec<char>) -> (logged: Vec<String>)
    ensures
        views(logged@) == relayed(program@, text_lines(text@)),
{
    let lines = lines_of(text);
    let ghost all = lines@.map_values(|line: Vec<char>| line@);
    let mut logged: Vec<String> = Vec::new();
    let mut j: usize = 0;
    assert(all.skip(0) =~= all);
    assert(views(logged@) =~= seq![]);
    while j < lines.len()
        invariant
            j <= lines@.len(),
            all == lines@.map_values(|line: Vec<char>| line@),
            relayed(program@, all) == views(logged@) + relayed(program@, all.skip(j as int)),
        decreases lines@.len() - j,
    {
        let line = &lines[j];
        assert(all.skip(j as int).drop_first() =~= all.skip(j + 1));
        assert(all.skip(j as int)[0] == line@);
        if !is_blank(line) {
            let ghost before = views(logged@);
            let mut entry = program.to_owned();
            push_char(&mut entry, ':');
            push_char(&mut entry, ' ');
            crate::text::push_rest(&mut entry, line, 0);
            assert(line@.skip(0) =~= line@);
            assert(entry@ =~= program@ + seq![':', ' '] + line@);
            let ghost e = entry@;
            logged.push(entry);
            assert(logged@[logged@.len() - 1]@ == e);
            assert(views(logged@) =~= before + seq![program@ + seq![':', ' '] + line@]);
        }
        j = j + 1;
    }
    assert(all.skip(j as int) =~= Seq::<Seq<char>>::empty());
    assert(views(logged@) + Seq::<Seq<char>>::empty() =~= views(logged@));
    logged
}

/// What a wait for a program bounded by a deadline does after one look at it.
#[derive(Debug, Clone, Copy, PartialEq, Eq, Structural)]
pub enum Poll {
    /// The program exited and did not succeed: the wait fails with its status.
    Failed,
    /// The program exited successfully: its output is read.
    Finished,
    /// The program is still running past the deadline: it is killed and the
    /// wait fails.
    TimedOut,
    /// The program is still running within the deadline: look again later.
    Wait,
}

/// The step of a bounded wait, on the exit of the program if it exited (its
/// success) and on whether the deadline has passed.
pub open spec fn poll_step(exit: Option<bool>, past_deadline: bool) -> Poll {
    match exit {
        Some(success) => if success {
            Poll::Finished
        } else {
            Poll::Failed
        },
        None => if past_deadline {
            Poll::TimedOut
        } else {
            Poll::Wait
        },
    }
}

/// What a bounded wait does after one look at the program: `exit` is its
/// success if it exited, `past_deadline` whether the time given is up; the
/// deadline matters only while the program runs.
pub fn next_poll(exit: Option<bool>, past_deadline: bool) -> (poll: Poll)
    ensures
        poll == poll_step(exit, past_deadline),
{
    match exit {
        Some(success) => {
            if success {
                Poll::Finished
            } else {
                Poll::Failed
            }
        },
        None => {
            if past_deadline {
                Poll::TimedOut
            } else {
                Poll::Wait
            }
        },
    }
}

} // verus!
