//! Texts.

use vstd::prelude::*;
use vstd::utf8::decode_utf8;
use vstd::utf8::encode_utf8;
use vstd::utf8::valid_utf8;

verus! {

/// `String::push` puts one character behind the others.
pub assume_specification[ String::push ](s: &mut String, c: char)
    ensures
        final(s)@ == old(s)@.push(c),
;

/// `String::from_utf8` turns UTF-8 into the text that it encodes, and refuses what is none.
#[verifier::external_body]
pub(crate) fn from_utf8(bytes: Vec<u8>) -> (r: Option<String>)
    ensures
        r is Some <==> valid_utf8(bytes@),
        r is Some ==> r->0@ == decode_utf8(bytes@),
{
    String::from_utf8(bytes).ok()
}

/// The bytes that encode a text.
pub fn bytes_of(text: &str) -> (r: Vec<u8>)
    ensures
        r@ == encode_utf8(text@),
{
    let bytes: &[u8] = text.as_bytes();
    let mut out: Vec<u8> = Vec::new();
    let n: usize = bytes.len();
    for i in 0..n
        invariant
            n == bytes@.len(),
            out@ =~= bytes@.take(i as int),
    {
        out.push(bytes[i]);
    }
    assert(out@ =~= bytes@);
    out
}

/// The digit for a number below ten.
pub open spec fn digit(n: nat) -> char {
    (('0' as nat) + n) as char
}

/// A number in decimal notation.
pub open spec fn decimal(n: nat) -> Seq<char>
    decreases n,
{
    if n < 10 {
        seq![digit(n)]
    } else {
        decimal(n / 10).push(digit(n % 10))
    }
}

fn digit_of(n: usize) -> (r: char)
    requires
        n < 10,
    ensures
        r == digit(n as nat),
{
    match n {
        0 => '0',
        1 => '1',
        2 => '2',
        3 => '3',
        4 => '4',
        5 => '5',
        6 => '6',
        7 => '7',
        8 => '8',
        _ => '9',
    }
}

/// A number in decimal notation.
pub fn to_decimal(n: usize) -> (r: String)
    ensures
        r@ == decimal(n as nat),
    decreases n,
{
    let mut out: String = if n < 10 {
        String::new()
    } else {
        to_decimal(n / 10)
    };
    let ghost before = out@;
    out.push(digit_of(n % 10));
    assert(out@ =~= decimal(n as nat));
    out
}

/// Texts are the same where their encodings are.
pub proof fn lemma_encoding_tells(a: Seq<char>, b: Seq<char>)
    ensures
        encode_utf8(a) == encode_utf8(b) <==> a == b,
{
    vstd::utf8::encode_utf8_decode_utf8(a);
    vstd::utf8::encode_utf8_decode_utf8(b);
}

/// Whether two texts consist of the same characters.
pub fn same_text(a: &str, b: &str) -> (r: bool)
    ensures
        r == (a@ == b@),
{
    let x: &[u8] = a.as_bytes();
    let y: &[u8] = b.as_bytes();
    proof {
        lemma_encoding_tells(a@, b@);
    }
    let n: usize = x.len();
    if n != y.len() {
        return false;
    }
    for i in 0..n
        invariant
            n == x@.len(),
            n == y@.len(),
            (x@ == y@) == (a@ == b@),
            forall|k: int| 0 <= k < i ==> x@[k] == y@[k],
    {
        if x[i] != y[i] {
            assert(x@[i as int] != y@[i as int]);
            return false;
        }
    }
    assert(x@ =~= y@);
    true
}

/// Whether bytes are the encoding of a text.
pub fn encodes(bytes: &Vec<u8>, text: &str) -> (r: bool)
    ensures
        r == (bytes@ == encode_utf8(text@)),
{
    let y: &[u8] = text.as_bytes();
    let n: usize = bytes.len();
    if n != y.len() {
        return false;
    }
    for i in 0..n
        invariant
            n == bytes@.len(),
            n == y@.len(),
            y@ == encode_utf8(text@),
            forall|k: int| 0 <= k < i ==> bytes@[k] == y@[k],
    {
        if bytes[i] != y[i] {
            assert(bytes@[i as int] != y@[i as int]);
            return false;
        }
    }
    assert(bytes@ =~= y@);
    true
}

/// The first text with the second one behind it.
pub fn joined(a: &str, b: &str) -> (r: String)
    ensures
        r@ == a@ + b@,
{
    a.to_owned().concat(b)
}

/// The characters of a text.
pub fn chars_of(text: &str) -> (r: Vec<char>)
    ensures
        r@ == text@,
{
    let mut out: Vec<char> = Vec::new();
    for c in it: text.chars()
        invariant
            it.seq() == text@,
            out@ =~= text@.take(it.index()),
    {
        out.push(c);
    }
    assert(out@ =~= text@);
    out
}

/// The text that characters make up.
pub fn text_from(chars: &Vec<char>, from: usize, to: usize) -> (r: String)
    requires
        from <= to <= chars@.len(),
    ensures
        r@ == chars@.subrange(from as int, to as int),
{
    let mut out: String = String::new();
    for i in from..to
        invariant
            from <= to <= chars@.len(),
            out@ =~= chars@.subrange(from as int, i as int),
    {
        out.push(chars[i]);
    }
    out
}

/// The place of the first line break, at or behind `from`; the end where there is none.
pub open spec fn line_end(text: Seq<char>, from: int) -> int
    decreases text.len() - from,
{
    if 0 <= from < text.len() && text[from] != '\n' {
        line_end(text, from + 1)
    } else {
        from
    }
}

/// A line without the carriage return at its end.
pub open spec fn trimmed(line: Seq<char>) -> Seq<char> {
    if line.len() > 0 && line.last() == '\r' {
        line.drop_last()
    } else {
        line
    }
}

/// The lines of a text from a place on: each ends with a line break, before which there may
/// be a carriage return; the last line need not end.
pub open spec fn lines_from(text: Seq<char>, from: int) -> Seq<Seq<char>>
    decreases text.len() - from,
    via lines_from_ends
{
    if from < 0 || from >= text.len() {
        Seq::empty()
    } else {
        let end = line_end(text, from);
        if end < text.len() {
            seq![trimmed(text.subrange(from, end))] + lines_from(text, end + 1)
        } else {
            seq![text.subrange(from, text.len() as int)]
        }
    }
}

#[via_fn]
proof fn lines_from_ends(text: Seq<char>, from: int) {
    if 0 <= from < text.len() {
        lemma_line_end(text, from);
    }
}

proof fn lemma_line_end(text: Seq<char>, from: int)
    requires
        0 <= from <= text.len(),
    ensures
        from <= line_end(text, from) <= text.len(),
    decreases text.len() - from,
{
    if from < text.len() && text[from] != '\n' {
        lemma_line_end(text, from + 1);
    }
}

/// The lines of a text.
pub open spec fn lines_of(text: Seq<char>) -> Seq<Seq<char>> {
    lines_from(text, 0)
}

proof fn lemma_line_end_behind(head: Seq<char>, tail: Seq<char>, from: int)
    requires
        0 <= from <= tail.len(),
    ensures
        line_end(head + tail, head.len() + from) == head.len() + line_end(tail, from),
    decreases tail.len() - from,
{
    if from < tail.len() {
        assert((head + tail)[head.len() + from] == tail[from]);
        if tail[from] != '\n' {
            lemma_line_end_behind(head, tail, from + 1);
        }
    }
}

proof fn lemma_lines_behind(head: Seq<char>, tail: Seq<char>, from: int)
    requires
        0 <= from <= tail.len(),
    ensures
        lines_from(head + tail, head.len() + from) == lines_from(tail, from),
    decreases tail.len() - from,
{
    let all = head + tail;
    let at = head.len() + from;
    if from < tail.len() {
        lemma_line_end(tail, from);
        lemma_line_end_behind(head, tail, from);
        let end = line_end(tail, from);
        if end < tail.len() {
            assert(all.subrange(at, head.len() + end) =~= tail.subrange(from, end));
            lemma_lines_behind(head, tail, end + 1);
        } else {
            assert(all.subrange(at, all.len() as int) =~= tail.subrange(
                from,
                tail.len() as int,
            ));
        }
    }
}

proof fn lemma_first_break(line: Seq<char>, rest: Seq<char>, from: int)
    requires
        0 <= from <= line.len(),
        forall|k: int| 0 <= k < line.len() ==> #[trigger] line[k] != '\n',
        rest.len() > 0 ==> rest[0] == '\n',
    ensures
        line_end(line + rest, from) == line.len(),
    decreases line.len() - from,
{
    if from < line.len() {
        assert((line + rest)[from] == line[from]);
        lemma_first_break(line, rest, from + 1);
    } else if rest.len() > 0 {
        assert((line + rest)[from] == rest[0]);
    }
}

/// A line break ends a line, with or without a carriage return before it, and what comes
/// behind it are the lines of the rest; a text without a break is one line.
pub proof fn law_breaks_end_lines(line: Seq<char>, rest: Seq<char>)
    requires
        forall|k: int| 0 <= k < line.len() ==> #[trigger] line[k] != '\n',
    ensures
        line.len() == 0 || line.last() != '\r' ==> lines_of(line.push('\n') + rest) == seq![line]
            + lines_of(rest),
        lines_of(line.push('\r').push('\n') + rest) == seq![line] + lines_of(rest),
        line.len() > 0 ==> lines_of(line) == seq![line],
        lines_of(Seq::empty()).len() == 0,
{
    let ended = line.push('\n');
    assert(ended + rest =~= line + (seq!['\n'] + rest));
    lemma_first_break(line, seq!['\n'] + rest, 0);
    assert((ended + rest).subrange(0, line.len() as int) =~= line);
    lemma_lines_behind(ended, rest, 0);
    let carried = line.push('\r');
    assert forall|k: int| 0 <= k < carried.len() implies #[trigger] carried[k] != '\n' by {
        if k < line.len() {
            assert(carried[k] == line[k]);
        }
    }
    let both = carried.push('\n');
    assert(both + rest =~= carried + (seq!['\n'] + rest));
    lemma_first_break(carried, seq!['\n'] + rest, 0);
    assert((both + rest).subrange(0, carried.len() as int) =~= carried);
    assert(carried.drop_last() =~= line);
    lemma_lines_behind(both, rest, 0);
    assert(line + Seq::empty() =~= line);
    lemma_first_break(line, Seq::empty(), 0);
    assert(line.subrange(0, line.len() as int) =~= line);
}

/// The lines of a text.
pub fn lines(text: &str) -> (r: Vec<String>)
    ensures
        crate::types::seen(r@) == lines_of(text@),
{
    let chars: Vec<char> = chars_of(text);
    let n: usize = chars.len();
    let mut out: Vec<String> = Vec::new();
    let mut from: usize = 0;
    while from < n
        invariant
            from <= n,
            n == chars@.len(),
            crate::types::seen(out@) + lines_from(chars@, from as int) =~= lines_of(chars@),
        decreases n - from,
    {
        let mut end: usize = from;
        while end < n && chars[end] != '\n'
            invariant
                from <= end <= n,
                n == chars@.len(),
                line_end(chars@, from as int) == line_end(chars@, end as int),
            decreases n - end,
        {
            end = end + 1;
        }
        let ghost rest = lines_from(chars@, from as int);
        let ghost before = crate::types::seen(out@);
        if end < n {
            let stop: usize = if end > from && chars[end - 1] == '\r' {
                end - 1
            } else {
                end
            };
            let line: String = text_from(&chars, from, stop);
            assert(line@ =~= trimmed(chars@.subrange(from as int, end as int)));
            proof {
                crate::types::lemma_seen_push(out@, line);
            }
            out.push(line);
            assert(rest =~= seq![line@] + lines_from(chars@, end + 1));
            from = end + 1;
        } else {
            let line: String = text_from(&chars, from, n);
            proof {
                crate::types::lemma_seen_push(out@, line);
            }
            out.push(line);
            assert(rest =~= seq![line@]);
            assert(lines_from(chars@, n as int) =~= Seq::<Seq<char>>::empty());
            from = n;
        }
    }
    out
}

} // verus!
