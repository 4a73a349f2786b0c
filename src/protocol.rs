//! The wire values: their sigils, and the framing of replies.

use vstd::prelude::*;
use vstd::utf8::encode_utf8;
use crate::decoder::{crlf_join, lemma_crlf_segments, plain_segment, tokens_from};

verus! {

/// The kinds of wire value, each known by the sigil that starts its first line.
#[derive(Clone, Copy, Debug, PartialEq, Eq, Structural)]
pub enum MessageType {
    SimpleString,
    Error,
    Integer,
    BulkString,
    Array,
}

/// The kind of value that the sigil `c` introduces, if any.
pub open spec fn sigil_type(c: char) -> Option<MessageType> {
    if c == '+' {
        Some(MessageType::SimpleString)
    } else if c == '-' {
        Some(MessageType::Error)
    } else if c == ':' {
        Some(MessageType::Integer)
    } else if c == '$' {
        Some(MessageType::BulkString)
    } else if c == '*' {
        Some(MessageType::Array)
    } else {
        None
    }
}

/// The kind of value that the sigil `c` introduces; `None` for a character that is no sigil.
pub fn get_instruction_type(c: char) -> (r: Option<MessageType>)
    ensures
        r == sigil_type(c),
{
    if c == '+' {
        Some(MessageType::SimpleString)
    } else if c == '-' {
        Some(MessageType::Error)
    } else if c == ':' {
        Some(MessageType::Integer)
    } else if c == '$' {
        Some(MessageType::BulkString)
    } else if c == '*' {
        Some(MessageType::Array)
    } else {
        None
    }
}

/// The character of the decimal digit `d`.
pub open spec fn digit_char(d: nat) -> char {
    if d == 0 {
        '0'
    } else if d == 1 {
        '1'
    } else if d == 2 {
        '2'
    } else if d == 3 {
        '3'
    } else if d == 4 {
        '4'
    } else if d == 5 {
        '5'
    } else if d == 6 {
        '6'
    } else if d == 7 {
        '7'
    } else if d == 8 {
        '8'
    } else {
        '9'
    }
}

/// `n` written in decimal, most significant digit first, without sign or leading zeros.
pub open spec fn decimal_of(n: nat) -> Seq<char>
    decreases n,
{
    if n < 10 {
        seq![digit_char(n)]
    } else {
        decimal_of(n / 10).push(digit_char(n % 10))
    }
}

/// The line terminator.
pub open spec fn crlf() -> Seq<char> {
    seq!['\r', '\n']
}

/// The number of bytes that `s` takes in UTF-8, as a `usize` holds it.
pub open spec fn byte_len(s: Seq<char>) -> nat {
    (encode_utf8(s).len() as usize) as nat
}

/// The wire form of a value of kind `kind` that carries `body`.
pub open spec fn frame(kind: MessageType, body: Seq<char>) -> Seq<char> {
    match kind {
        MessageType::SimpleString => seq!['+'] + body + crlf(),
        MessageType::Error => seq!['-'] + body + crlf(),
        MessageType::Integer => seq![':'] + crlf(),
        MessageType::BulkString => seq!['$'] + decimal_of(byte_len(body)) + crlf() + body + crlf(),
        MessageType::Array => seq!['*'] + crlf(),
    }
}

/// The reply that stands for a missing value: a bulk string of length minus one.
pub open spec fn null_bulk_string() -> Seq<char> {
    seq!['$', '-', '1', '\r', '\n']
}

/// Relies on the `Display` of `usize`, through `to_string`: the number in decimal digits,
/// with no sign and no padding.
#[verifier::external_body]
fn decimal_text(n: usize) -> (r: String)
    ensures
        r@ == decimal_of(n as nat),
{
    n.to_string()
}

/// A string of the one character `c`.
fn char_text(c: char) -> (r: String)
    ensures
        r@ == seq![c],
{
    let mut s = String::new();
    crate::decoder::push_char(&mut s, c);
    s
}

/// Frames `body` as a wire value of kind `kind`. An integer or an array frame carries
/// only its sigil.
pub fn format_message(kind: MessageType, body: String) -> (r: String)
    ensures
        r@ == frame(kind, body@),
{
    let mut message = match kind {
        MessageType::SimpleString => char_text('+'),
        MessageType::Error => char_text('-'),
        MessageType::Integer => char_text(':'),
        MessageType::BulkString => char_text('$'),
        MessageType::Array => char_text('*'),
    };
    let end = "\r\n";
    proof {
        reveal_strlit("\r\n");
    }
    if kind == MessageType::BulkString {
        let n = body.as_str().len();
        let digits = decimal_text(n);
        message.append(digits.as_str());
        message.append(end);
    }
    if kind == MessageType::SimpleString || kind == MessageType::Error || kind
        == MessageType::BulkString {
        message.append(body.as_str());
    }
    message.append(end);
    proof {
        assert(end@ =~= crlf());
    }
    assert(message@ =~= frame(kind, body@));
    message
}

/// The null bulk string, the reply for a missing value.
pub fn null_bulk_reply() -> (r: String)
    ensures
        r@ == null_bulk_string(),
{
    let s = String::from_str("$-1\r\n");
    proof {
        reveal_strlit("$-1\r\n");
    }
    assert(s@ =~= null_bulk_string());
    s
}

/// Every character of a decimal numeral is a digit, and there is at least one.
pub proof fn lemma_decimal_digits(n: nat)
    ensures
        decimal_of(n).len() > 0,
        forall|k: int| 0 <= k < decimal_of(n).len() ==> '0' <= #[trigger] decimal_of(n)[k] <= '9',
    decreases n,
{
    if n >= 10 {
        lemma_decimal_digits(n / 10);
    }
}

/// A bulk string that is not empty and holds no line terminator, framed and then read back,
/// gives its length header and then exactly the string.
pub proof fn lemma_bulk_string_round_trip(body: Seq<char>)
    requires
        plain_segment(body),
    ensures
        tokens_from(frame(MessageType::BulkString, body), 0) == seq![
            seq!['$'] + decimal_of(byte_len(body)),
            body,
        ],
{
    let header = seq!['$'] + decimal_of(byte_len(body));
    let segs = seq![header, body];
    lemma_decimal_digits(byte_len(body));
    assert forall|k: int| 0 <= k < header.len() implies #[trigger] header[k] != '\r' && header[k]
        != '\n' by {
        if k > 0 {
            assert(header[k] == decimal_of(byte_len(body))[k - 1]);
        }
    }
    assert(segs.drop_first() =~= seq![body]);
    assert(seq![body].drop_first() =~= Seq::<Seq<char>>::empty());
    assert(crlf_join(Seq::<Seq<char>>::empty()) == Seq::<char>::empty());
    assert(crlf_join(seq![body]) =~= body + seq!['\r', '\n']);
    assert(crlf_join(segs) == header + seq!['\r', '\n'] + crlf_join(seq![body]));
    assert(crlf_join(segs) =~= frame(MessageType::BulkString, body));
    lemma_crlf_segments(segs);
}

} // verus!
