//! Turns tokens into commands: a state machine over arrays of bulk strings.

use vstd::prelude::*;
use crate::decoder::{
    CharRoller, after_token, crlf_join, lemma_crlf_segments, lemma_line_end_bounds,
    plain_segment, tokens_from,
};
use crate::protocol::{
    MessageType, byte_len, decimal_of, digit_char, get_instruction_type, lemma_decimal_digits,
    sigil_type,
};

verus! {

/// A request that the store serves.
#[derive(Clone, Debug, PartialEq, Eq)]
pub enum Command {
    Ping,
    Echo(String),
    Info(String),
    Get(String),
    SetKey(String, String, Option<u64>),
}

/// A command with its texts as character sequences.
pub enum CommandModel {
    Ping,
    Echo(Seq<char>),
    Info(Seq<char>),
    Get(Seq<char>),
    SetKey(Seq<char>, Seq<char>, Option<u64>),
}

impl View for Command {
    type V = CommandModel;

    open spec fn view(&self) -> CommandModel {
        match self {
            Command::Ping => CommandModel::Ping,
            Command::Echo(t) => CommandModel::Echo(t@),
            Command::Info(t) => CommandModel::Info(t@),
            Command::Get(k) => CommandModel::Get(k@),
            Command::SetKey(k, v, t) => CommandModel::SetKey(k@, v@, *t),
        }
    }
}

/// Why a message could not be read as commands.
#[derive(Clone, Copy, Debug, PartialEq, Eq, Structural)]
pub enum ProtocolError {
    /// A header line was empty.
    MissingSigil,
    /// A header line started with a character that is no sigil.
    UnknownSigil,
    /// A header line announced a kind of value other than the one expected here.
    UnexpectedType,
    /// An array header did not carry a count.
    InvalidLength,
}

/// Where the parser stands in an array of bulk strings.
#[derive(Clone, Copy, Debug, PartialEq, Eq, Structural)]
pub enum State {
    ReadingArray,
    ReadingBulkStringLength,
    ReadingBulkStringContent,
}

/// The state of the parser: where it stands, how many strings its array still owes,
/// and the command name and arguments read so far.
pub struct ParserModel {
    pub state: State,
    pub items_left: u64,
    pub name: Option<Seq<char>>,
    pub args: Seq<Seq<char>>,
}

/// The texts of a sequence of strings.
pub open spec fn views(v: Seq<String>) -> Seq<Seq<char>> {
    v.map_values(|s: String| s@)
}

/// The models of a sequence of commands.
pub open spec fn command_views(v: Seq<Command>) -> Seq<CommandModel> {
    v.map_values(|c: Command| c@)
}

/// Whether `c` is an ASCII decimal digit.
pub open spec fn is_digit(c: char) -> bool {
    '0' <= c <= '9'
}

/// The number that the digits `s` write in decimal.
pub open spec fn digits_value(s: Seq<char>) -> nat
    decreases s.len(),
{
    if s.len() == 0 {
        0
    } else {
        digits_value(s.drop_last()) * 10 + ((s.last() as u32 - '0' as u32) as nat)
    }
}

/// The unsigned 64-bit number that `s` writes: an optional `+`, then one or more decimal
/// digits, of a value that fits.
pub open spec fn unsigned_value(s: Seq<char>) -> Option<u64> {
    let d = if s.len() > 0 && s[0] == '+' {
        s.drop_first()
    } else {
        s
    };
    if d.len() > 0 && (forall|i: int| 0 <= i < d.len() ==> is_digit(#[trigger] d[i])) && digits_value(d)
        <= u64::MAX {
        Some(digits_value(d) as u64)
    } else {
        None
    }
}

/// Relies on `FromStr` for `u64` (`str::parse::<u64>`): it accepts an optional `+` followed
/// by one or more ASCII digits whose value fits in 64 bits, and fails on anything else.
#[verifier::external_body]
fn parse_u64(s: &str) -> (r: Option<u64>)
    ensures
        r == unsigned_value(s@),
{
    s.parse::<u64>().ok()
}

/// Whether `c` is the lower-case letter `w`, in either case, or else `w` itself.
pub open spec fn same_letter(c: char, w: char) -> bool {
    c == w || ('a' <= w <= 'z' && c as u32 == w as u32 - 32)
}

/// Whether `name` spells `word`, ignoring ASCII case.
pub open spec fn names_match(name: Seq<char>, word: Seq<char>) -> bool {
    name.len() == word.len() && forall|i: int| 0 <= i < name.len() ==> same_letter(#[trigger] name[i], word[i])
}

/// The words `ws` joined by single spaces.
pub open spec fn joined(ws: Seq<Seq<char>>) -> Seq<char>
    decreases ws.len(),
{
    if ws.len() == 0 {
        Seq::empty()
    } else if ws.len() == 1 {
        ws[0]
    } else {
        joined(ws.drop_last()) + seq![' '] + ws.last()
    }
}

/// The time to live that a `set` argument gives: a positive number of milliseconds, or none.
pub open spec fn ttl_arg(s: Seq<char>) -> Option<u64> {
    match unsigned_value(s) {
        Some(v) if v > 0 => Some(v),
        _ => None,
    }
}

/// The command that `name` with arguments `args` makes: `None` for an unknown name or
/// too few arguments. A `set` takes its time to live from its fourth argument when it has
/// exactly four.
pub open spec fn command_of(name: Seq<char>, args: Seq<Seq<char>>) -> Option<CommandModel> {
    if names_match(name, seq!['p', 'i', 'n', 'g']) {
        Some(CommandModel::Ping)
    } else if names_match(name, seq!['e', 'c', 'h', 'o']) {
        if args.len() >= 1 {
            Some(CommandModel::Echo(joined(args)))
        } else {
            None
        }
    } else if names_match(name, seq!['g', 'e', 't']) {
        if args.len() >= 1 {
            Some(CommandModel::Get(args[0]))
        } else {
            None
        }
    } else if names_match(name, seq!['s', 'e', 't']) {
        if args.len() >= 2 {
            Some(
                CommandModel::SetKey(
                    args[0],
                    args[1],
                    if args.len() == 4 {
                        ttl_arg(args[3])
                    } else {
                        None
                    },
                ),
            )
        } else {
            None
        }
    } else if names_match(name, seq!['c', 'o', 'm', 'm', 'a', 'n', 'd']) {
        Some(CommandModel::Info(joined(args)))
    } else {
        None
    }
}

/// Whether the header line `w` announces a value of kind `kind`.
pub open spec fn expect_kind(w: Seq<char>, kind: MessageType) -> Result<(), ProtocolError> {
    if w.len() == 0 {
        Err(ProtocolError::MissingSigil)
    } else {
        match sigil_type(w[0]) {
            None => Err(ProtocolError::UnknownSigil),
            Some(t) => if t == kind {
                Ok(())
            } else {
                Err(ProtocolError::UnexpectedType)
            },
        }
    }
}

/// The parser between commands, before any array.
pub open spec fn initial() -> ParserModel {
    ParserModel { state: State::ReadingArray, items_left: 0, name: None, args: Seq::empty() }
}

/// The parser after a command is complete: the next one may open a new array.
pub open spec fn between() -> ParserModel {
    ParserModel {
        state: State::ReadingBulkStringLength,
        items_left: 0,
        name: None,
        args: Seq::empty(),
    }
}

/// Reading an array header `w`: its count is the number of strings to come.
pub open spec fn array_header(w: Seq<char>) -> Result<(ParserModel, Option<CommandModel>), ProtocolError> {
    match expect_kind(w, MessageType::Array) {
        Err(e) => Err(e),
        Ok(_) => match unsigned_value(w.drop_first()) {
            None => Err(ProtocolError::InvalidLength),
            Some(n) => Ok(
                (
                    ParserModel {
                        state: State::ReadingBulkStringLength,
                        items_left: n,
                        name: None,
                        args: Seq::empty(),
                    },
                    None,
                ),
            ),
        },
    }
}

/// One token `w` read in state `p`: the next state and the command completed, if any.
pub open spec fn step(p: ParserModel, w: Seq<char>) -> Result<
    (ParserModel, Option<CommandModel>),
    ProtocolError,
> {
    match p.state {
        State::ReadingArray => array_header(w),
        State::ReadingBulkStringLength => if p.items_left == 0 && w.len() > 0 && w[0] == '*' {
            array_header(w)
        } else {
            match expect_kind(w, MessageType::BulkString) {
                Err(e) => Err(e),
                Ok(_) => Ok((ParserModel { state: State::ReadingBulkStringContent, ..p }, None)),
            }
        },
        State::ReadingBulkStringContent => {
            let name = match p.name {
                None => w,
                Some(n) => n,
            };
            let args = match p.name {
                None => p.args,
                Some(_) => p.args.push(w),
            };
            if p.items_left > 1 {
                Ok(
                    (
                        ParserModel {
                            state: State::ReadingBulkStringLength,
                            items_left: (p.items_left - 1) as u64,
                            name: Some(name),
                            args,
                        },
                        None,
                    ),
                )
            } else {
                Ok((between(), command_of(name, args)))
            }
        },
    }
}

/// The parser's state after the tokens `ws` read from state `p`, with the commands completed
/// on the way.
pub open spec fn run_from(p: ParserModel, ws: Seq<Seq<char>>) -> Result<
    (ParserModel, Seq<CommandModel>),
    ProtocolError,
>
    decreases ws.len(),
{
    if ws.len() == 0 {
        Ok((p, Seq::empty()))
    } else {
        match run_from(p, ws.drop_last()) {
            Err(e) => Err(e),
            Ok((q, cs)) => match step(q, ws.last()) {
                Err(e) => Err(e),
                Ok((q2, c)) => Ok(
                    (
                        q2,
                        match c {
                            Some(c) => cs.push(c),
                            None => cs,
                        },
                    ),
                ),
            },
        }
    }
}

/// The parser's state after the tokens `ws` of a message, with the commands completed on the way.
pub open spec fn run(ws: Seq<Seq<char>>) -> Result<(ParserModel, Seq<CommandModel>), ProtocolError> {
    run_from(initial(), ws)
}

/// The commands that the text `msg` holds, or the first error in it.
pub open spec fn decode(msg: Seq<char>) -> Result<Seq<CommandModel>, ProtocolError> {
    match run(tokens_from(msg, 0)) {
        Err(e) => Err(e),
        Ok((_, cs)) => Ok(cs),
    }
}

/// Once an error is met, further tokens do not undo it.
pub proof fn lemma_run_error_stays(a: Seq<Seq<char>>, b: Seq<Seq<char>>)
    requires
        run(a) is Err,
    ensures
        run(a + b) == run(a),
{
    lemma_run_concat(initial(), a, b);
}

/// Reading two runs of tokens one after the other is reading the second from where the first
/// left the parser.
pub proof fn lemma_run_concat(p: ParserModel, a: Seq<Seq<char>>, b: Seq<Seq<char>>)
    ensures
        run_from(p, a + b) == match run_from(p, a) {
            Err(e) => Err(e),
            Ok((q, cs)) => match run_from(q, b) {
                Err(e) => Err(e),
                Ok((q2, ds)) => Ok((q2, cs + ds)),
            },
        },
    decreases b.len(),
{
    if b.len() == 0 {
        assert(a + b =~= a);
        if let Ok((q, cs)) = run_from(p, a) {
            assert(cs + Seq::<CommandModel>::empty() =~= cs);
        }
    } else {
        lemma_run_concat(p, a, b.drop_last());
        assert((a + b).drop_last() =~= a + b.drop_last());
        assert((a + b).last() == b.last());
        if let Ok((q, cs)) = run_from(p, a) {
            if let Ok((q2, ds)) = run_from(q, b.drop_last()) {
                if let Ok((q3, c)) = step(q2, b.last()) {
                    if let Some(c) = c {
                        assert(cs + ds.push(c) =~= (cs + ds).push(c));
                    }
                }
            }
        }
    }
}

/// The tokens of a bulk string `w`: its length header, then the string.
pub open spec fn bulk_tokens(w: Seq<char>) -> Seq<Seq<char>> {
    seq![seq!['$'] + decimal_of(byte_len(w)), w]
}

/// The tokens of the bulk strings `ws`, one after the other.
pub open spec fn bulks_tokens(ws: Seq<Seq<char>>) -> Seq<Seq<char>>
    decreases ws.len(),
{
    if ws.len() == 0 {
        Seq::empty()
    } else {
        bulks_tokens(ws.drop_last()) + bulk_tokens(ws.last())
    }
}

/// The tokens of a request: an array header with the count of `ws`, then each string of `ws`.
pub open spec fn request_tokens(ws: Seq<Seq<char>>) -> Seq<Seq<char>> {
    seq![seq!['*'] + decimal_of(ws.len())] + bulks_tokens(ws)
}

/// The command that a request of the strings `ws` makes: its first string names it.
pub open spec fn request_command(ws: Seq<Seq<char>>) -> Option<CommandModel> {
    command_of(ws[0], ws.drop_first())
}

/// The commands completed as a sequence: one or none.
pub open spec fn completed(c: Option<CommandModel>) -> Seq<CommandModel> {
    match c {
        Some(c) => seq![c],
        None => Seq::empty(),
    }
}

/// A decimal numeral reads back as its number.
pub proof fn lemma_decimal_value(n: nat)
    ensures
        decimal_of(n).len() > 0,
        forall|k: int| 0 <= k < decimal_of(n).len() ==> is_digit(#[trigger] decimal_of(n)[k]),
        digits_value(decimal_of(n)) == n,
        unsigned_value(decimal_of(n)) == (if n <= u64::MAX {
            Some(n as u64)
        } else {
            None
        }),
    decreases n,
{
    let d = n % 10;
    let s = decimal_of(n);
    assert(digit_char(d) as u32 - '0' as u32 == d);
    if n >= 10 {
        lemma_decimal_value(n / 10);
        assert(s.drop_last() == decimal_of(n / 10));
        assert(s.last() == digit_char(d));
        assert((n / 10) * 10 + d == n);
        assert(is_digit(s[0]));
    } else {
        assert(s.drop_last() =~= Seq::<char>::empty());
        assert(digits_value(Seq::<char>::empty()) == 0);
        assert(s.last() == digit_char(n));
        assert(is_digit(s[0]));
    }
    assert(s[0] != '+');
}

/// The parser partway through a request of the strings `ws` announced as `n`, after `k` of
/// them.
pub open spec fn partway(n: u64, ws: Seq<Seq<char>>, k: int) -> ParserModel {
    ParserModel {
        state: State::ReadingBulkStringLength,
        items_left: (n - k) as u64,
        name: if k == 0 {
            None
        } else {
            Some(ws[0])
        },
        args: if k == 0 {
            Seq::empty()
        } else {
            ws.subrange(1, k)
        },
    }
}

/// Reading the strings of a request one by one fills the parser, and the last completes the
/// command.
proof fn lemma_bulks_run(n: u64, ws: Seq<Seq<char>>, k: int)
    requires
        ws.len() == n,
        0 <= k <= n,
        n >= 1,
    ensures
        k < n ==> run_from(partway(n, ws, 0), bulks_tokens(ws.take(k))) == Ok::<
            (ParserModel, Seq<CommandModel>),
            ProtocolError,
        >((partway(n, ws, k), Seq::empty())),
        k == n ==> run_from(partway(n, ws, 0), bulks_tokens(ws.take(k))) == Ok::<
            (ParserModel, Seq<CommandModel>),
            ProtocolError,
        >((between(), completed(request_command(ws)))),
    decreases k,
{
    let p0 = partway(n, ws, 0);
    if k == 0 {
        assert(ws.take(0) =~= Seq::<Seq<char>>::empty());
    } else {
        lemma_bulks_run(n, ws, k - 1);
        let w = ws[k - 1];
        assert(ws.take(k).drop_last() =~= ws.take(k - 1));
        assert(ws.take(k).last() == w);
        lemma_run_concat(p0, bulks_tokens(ws.take(k - 1)), bulk_tokens(w));
        let q = partway(n, ws, k - 1);
        let h = seq!['$'] + decimal_of(byte_len(w));
        assert(h[0] == '$');
        assert(sigil_type('$') == Some(MessageType::BulkString));
        assert(expect_kind(h, MessageType::BulkString) == Ok::<(), ProtocolError>(()));
        let q1 = ParserModel { state: State::ReadingBulkStringContent, ..q };
        assert(step(q, h) == Ok::<(ParserModel, Option<CommandModel>), ProtocolError>((q1, None)));
        assert(bulk_tokens(w).drop_last() =~= seq![h]);
        assert(seq![h].drop_last() =~= Seq::<Seq<char>>::empty());
        assert(seq![h].last() == h);
        assert(run_from(q, Seq::<Seq<char>>::empty()) == Ok::<(ParserModel, Seq<CommandModel>), ProtocolError>(
            (q, Seq::empty()),
        ));
        assert(run_from(q, seq![h]) == Ok::<(ParserModel, Seq<CommandModel>), ProtocolError>(
            (q1, Seq::empty()),
        ));
        if k > 1 {
            assert(ws.subrange(1, k - 1).push(w) =~= ws.subrange(1, k));
        }
        if k == 1 {
            assert(ws.subrange(1, 1) =~= Seq::<Seq<char>>::empty());
        }
        if k == n {
            assert(ws.subrange(1, k) =~= ws.drop_first());
            assert(Seq::<CommandModel>::empty() + completed(request_command(ws)) =~= completed(
                request_command(ws),
            ));
        } else {
            assert(Seq::<CommandModel>::empty() + Seq::<CommandModel>::empty() =~= Seq::<
                CommandModel,
            >::empty());
        }
    }
}

/// A whole request read between commands completes the command that its strings make, and
/// leaves the parser ready for the next request.
pub proof fn lemma_request_run(p: ParserModel, ws: Seq<Seq<char>>)
    requires
        p == initial() || p == between(),
        1 <= ws.len() <= u64::MAX,
    ensures
        run_from(p, request_tokens(ws)) == Ok::<(ParserModel, Seq<CommandModel>), ProtocolError>(
            (between(), completed(request_command(ws))),
        ),
{
    let n = ws.len() as u64;
    let h = seq!['*'] + decimal_of(n as nat);
    lemma_decimal_value(n as nat);
    assert(h.drop_first() =~= decimal_of(n as nat));
    assert(sigil_type('*') == Some(MessageType::Array));
    assert(step(p, h) == Ok::<(ParserModel, Option<CommandModel>), ProtocolError>(
        (partway(n, ws, 0), None),
    ));
    assert(seq![h].drop_last() =~= Seq::<Seq<char>>::empty());
    assert(seq![h].last() == h);
    assert(run_from(p, Seq::<Seq<char>>::empty()) == Ok::<(ParserModel, Seq<CommandModel>), ProtocolError>(
        (p, Seq::empty()),
    ));
    assert(run_from(p, seq![h]) == Ok::<(ParserModel, Seq<CommandModel>), ProtocolError>(
        (partway(n, ws, 0), Seq::empty()),
    ));
    assert(request_tokens(ws) == seq![h] + bulks_tokens(ws));
    lemma_run_concat(p, seq![h], bulks_tokens(ws));
    lemma_bulks_run(n, ws, n as int);
    assert(ws.take(n as int) =~= ws);
    assert(Seq::<CommandModel>::empty() + completed(request_command(ws)) =~= completed(
        request_command(ws),
    ));
}

/// In a batch of two requests, one naming no known command, the other is still served: the
/// batch yields exactly its command, whichever of the two comes first.
pub proof fn lemma_unknown_command_skipped(bad: Seq<Seq<char>>, good: Seq<Seq<char>>)
    requires
        1 <= bad.len() <= u64::MAX,
        1 <= good.len() <= u64::MAX,
        request_command(bad) is None,
        request_command(good) is Some,
    ensures
        run(request_tokens(bad) + request_tokens(good)) == Ok::<
            (ParserModel, Seq<CommandModel>),
            ProtocolError,
        >((between(), seq![request_command(good)->0])),
        run(request_tokens(good) + request_tokens(bad)) == Ok::<
            (ParserModel, Seq<CommandModel>),
            ProtocolError,
        >((between(), seq![request_command(good)->0])),
{
    let c = request_command(good)->0;
    lemma_request_run(initial(), bad);
    lemma_request_run(between(), good);
    lemma_run_concat(initial(), request_tokens(bad), request_tokens(good));
    assert(Seq::<CommandModel>::empty() + seq![c] =~= seq![c]);
    lemma_request_run(initial(), good);
    lemma_request_run(between(), bad);
    lemma_run_concat(initial(), request_tokens(good), request_tokens(bad));
    assert(seq![c] + Seq::<CommandModel>::empty() =~= seq![c]);
}

/// A header of sigil `c` and the numeral of `n` holds no line terminator.
proof fn lemma_header_plain(c: char, n: nat)
    requires
        c != '\r' && c != '\n',
    ensures
        plain_segment(seq![c] + decimal_of(n)),
{
    let h = seq![c] + decimal_of(n);
    lemma_decimal_digits(n);
    assert forall|k: int| 0 <= k < h.len() implies #[trigger] h[k] != '\r' && h[k] != '\n' by {
        if k > 0 {
            assert(h[k] == decimal_of(n)[k - 1]);
        }
    }
}

/// The tokens of a request of plain strings are plain.
proof fn lemma_request_plain(ws: Seq<Seq<char>>)
    requires
        forall|k: int| 0 <= k < ws.len() ==> plain_segment(#[trigger] ws[k]),
    ensures
        forall|k: int|
            0 <= k < request_tokens(ws).len() ==> plain_segment(#[trigger] request_tokens(ws)[k]),
{
    lemma_bulks_plain(ws);
    lemma_header_plain('*', ws.len());
    let t = request_tokens(ws);
    assert forall|k: int| 0 <= k < t.len() implies plain_segment(#[trigger] t[k]) by {
        if k > 0 {
            assert(t[k] == bulks_tokens(ws)[k - 1]);
        }
    }
}

proof fn lemma_bulks_plain(ws: Seq<Seq<char>>)
    requires
        forall|k: int| 0 <= k < ws.len() ==> plain_segment(#[trigger] ws[k]),
    ensures
        forall|k: int|
            0 <= k < bulks_tokens(ws).len() ==> plain_segment(#[trigger] bulks_tokens(ws)[k]),
    decreases ws.len(),
{
    if ws.len() > 0 {
        let front = ws.drop_last();
        assert(forall|k: int| 0 <= k < front.len() ==> #[trigger] front[k] == ws[k]);
        lemma_bulks_plain(front);
        lemma_header_plain('$', byte_len(ws.last()));
        assert(plain_segment(ws[ws.len() - 1]));
        let t = bulks_tokens(ws);
        let a = bulks_tokens(front);
        assert forall|k: int| 0 <= k < t.len() implies plain_segment(#[trigger] t[k]) by {
            if k < a.len() {
                assert(t[k] == a[k]);
            } else {
                assert(t[k] == bulk_tokens(ws.last())[k - a.len()]);
            }
        }
    }
}

/// A message of two requests of plain strings, one naming no known command, decodes to exactly
/// the other's command, whichever of the two comes first.
pub proof fn lemma_unknown_command_in_batch(bad: Seq<Seq<char>>, good: Seq<Seq<char>>)
    requires
        1 <= bad.len() <= u64::MAX,
        1 <= good.len() <= u64::MAX,
        forall|k: int| 0 <= k < bad.len() ==> plain_segment(#[trigger] bad[k]),
        forall|k: int| 0 <= k < good.len() ==> plain_segment(#[trigger] good[k]),
        request_command(bad) is None,
        request_command(good) is Some,
    ensures
        decode(crlf_join(request_tokens(bad) + request_tokens(good))) == Ok::<
            Seq<CommandModel>,
            ProtocolError,
        >(seq![request_command(good)->0]),
        decode(crlf_join(request_tokens(good) + request_tokens(bad))) == Ok::<
            Seq<CommandModel>,
            ProtocolError,
        >(seq![request_command(good)->0]),
{
    lemma_unknown_command_skipped(bad, good);
    lemma_request_plain(bad);
    lemma_request_plain(good);
    let x = request_tokens(bad);
    let y = request_tokens(good);
    assert forall|k: int| 0 <= k < (x + y).len() implies plain_segment(#[trigger] (x + y)[k]) by {
        if k < x.len() {
            assert((x + y)[k] == x[k]);
        } else {
            assert((x + y)[k] == y[k - x.len()]);
        }
    }
    assert forall|k: int| 0 <= k < (y + x).len() implies plain_segment(#[trigger] (y + x)[k]) by {
        if k < y.len() {
            assert((y + x)[k] == y[k]);
        } else {
            assert((y + x)[k] == x[k - y.len()]);
        }
    }
    lemma_crlf_segments(x + y);
    lemma_crlf_segments(y + x);
}

/// A `set` whose time to live is not a number is served as one without a time to live.
pub proof fn lemma_unreadable_ttl_ignored(
    name: Seq<char>,
    key: Seq<char>,
    value: Seq<char>,
    unit: Seq<char>,
    ttl: Seq<char>,
)
    requires
        names_match(name, seq!['s', 'e', 't']),
        unsigned_value(ttl) is None,
    ensures
        command_of(name, seq![key, value, unit, ttl]) == command_of(name, seq![key, value]),
        command_of(name, seq![key, value]) == Some(CommandModel::SetKey(key, value, None)),
{
    assert(same_letter(name[0], 's'));
    assert(!names_match(name, seq!['g', 'e', 't']));
}

/// Whether `name` spells the lower-case `word`, ignoring ASCII case.
fn name_is(name: &str, word: &str) -> (r: bool)
    ensures
        r == names_match(name@, word@),
{
    let n = name.unicode_len();
    if n != word.unicode_len() {
        return false;
    }
    let mut i: usize = 0;
    while i < n
        invariant
            n == name@.len(),
            n == word@.len(),
            i <= n,
            forall|j: int| 0 <= j < i ==> same_letter(#[trigger] name@[j], word@[j]),
        decreases n - i,
    {
        let c = name.get_char(i);
        let w = word.get_char(i);
        if !(c == w || ('a' <= w && w <= 'z' && c as u32 == w as u32 - 32)) {
            return false;
        }
        i += 1;
    }
    true
}

/// The strings `args` joined by single spaces.
fn join_words(args: &Vec<String>) -> (r: String)
    ensures
        r@ == joined(views(args@)),
{
    let mut out = String::new();
    let space = " ";
    proof {
        reveal_strlit(" ");
    }
    let mut i: usize = 0;
    while i < args.len()
        invariant
            i <= args.len(),
            out@ == joined(views(args@).take(i as int)),
            space@ == seq![' '],
        decreases args.len() - i,
    {
        let ghost ws = views(args@).take(i + 1);
        assert(ws.drop_last() =~= views(args@).take(i as int));
        if i > 0 {
            out.append(space);
        } else {
            assert(out@ =~= Seq::<char>::empty());
        }
        out.append(args[i].as_str());
        i += 1;
        assert(out@ =~= joined(ws));
    }
    assert(views(args@).take(args.len() as int) =~= views(args@));
    out
}

/// The command that the name `name` with arguments `args` makes; `None` for an unknown name
/// or too few arguments.
pub fn build_command(name: &str, args: &Vec<String>) -> (r: Option<Command>)
    ensures
        r is Some <==> command_of(name@, views(args@)) is Some,
        r is Some ==> command_of(name@, views(args@)) == Some(r->0@),
{
    let ghost ws = views(args@);
    proof {
        reveal_strlit("ping");
        reveal_strlit("echo");
        reveal_strlit("get");
        reveal_strlit("set");
        reveal_strlit("command");
    }
    assert("ping"@ =~= seq!['p', 'i', 'n', 'g']);
    assert("echo"@ =~= seq!['e', 'c', 'h', 'o']);
    assert("get"@ =~= seq!['g', 'e', 't']);
    assert("set"@ =~= seq!['s', 'e', 't']);
    assert("command"@ =~= seq!['c', 'o', 'm', 'm', 'a', 'n', 'd']);
    if name_is(name, "ping") {
        Some(Command::Ping)
    } else if name_is(name, "echo") {
        if args.len() >= 1 {
            Some(Command::Echo(join_words(args)))
        } else {
            None
        }
    } else if name_is(name, "get") {
        if args.len() >= 1 {
            Some(Command::Get(args[0].clone()))
        } else {
            None
        }
    } else if name_is(name, "set") {
        if args.len() >= 2 {
            let ttl = if args.len() == 4 {
                match parse_u64(args[3].as_str()) {
                    Some(v) => if v > 0 {
                        Some(v)
                    } else {
                        None
                    },
                    None => None,
                }
            } else {
                None
            };
            Some(Command::SetKey(args[0].clone(), args[1].clone(), ttl))
        } else {
            None
        }
    } else if name_is(name, "command") {
        Some(Command::Info(join_words(args)))
    } else {
        None
    }
}

/// Whether the header line `w` announces a value of kind `kind`.
fn check_kind(w: &str, kind: MessageType) -> (r: Result<(), ProtocolError>)
    ensures
        r == expect_kind(w@, kind),
{
    if w.unicode_len() == 0 {
        return Err(ProtocolError::MissingSigil);
    }
    match get_instruction_type(w.get_char(0)) {
        None => Err(ProtocolError::UnknownSigil),
        Some(t) => if t == kind {
            Ok(())
        } else {
            Err(ProtocolError::UnexpectedType)
        },
    }
}

/// The parser of one connection's message.
pub struct Parser {
    state: State,
    items_left: u64,
    name: Option<String>,
    args: Vec<String>,
}

impl View for Parser {
    type V = ParserModel;

    closed spec fn view(&self) -> ParserModel {
        ParserModel {
            state: self.state,
            items_left: self.items_left,
            name: match self.name {
                Some(n) => Some(n@),
                None => None,
            },
            args: views(self.args@),
        }
    }
}

impl Parser {
    /// A parser that waits for the first array.
    pub fn new() -> (r: Parser)
        ensures
            r@ == initial(),
    {
        let r = Parser { state: State::ReadingArray, items_left: 0, name: None, args: Vec::new() };
        assert(r@.args =~= Seq::<Seq<char>>::empty());
        r
    }

    /// Reads an array header.
    fn read_header(&mut self, w: &str) -> (r: Result<Option<Command>, ProtocolError>)
        ensures
            match array_header(w@) {
                Err(e) => r == Err::<Option<Command>, ProtocolError>(e) && final(self)@ == old(self)@,
                Ok((q, _)) => r == Ok::<Option<Command>, ProtocolError>(None) && final(self)@ == q,
            },
    {
        match check_kind(w, MessageType::Array) {
            Err(e) => Err(e),
            Ok(()) => {
                let rest = w.substring_char(1, w.unicode_len());
                assert(rest@ =~= w@.drop_first());
                match parse_u64(rest) {
                    None => Err(ProtocolError::InvalidLength),
                    Some(n) => {
                        self.state = State::ReadingBulkStringLength;
                        self.items_left = n;
                        self.name = None;
                        self.args = Vec::new();
                        assert(self@.args =~= Seq::<Seq<char>>::empty());
                        Ok(None)
                    },
                }
            },
        }
    }

    /// Reads one token: gives the command that it completes, if any, or the protocol error
    /// that it makes, in which case the parser is left as it was.
    pub fn feed(&mut self, word: String) -> (r: Result<Option<Command>, ProtocolError>)
        ensures
            match step(old(self)@, word@) {
                Err(e) => r == Err::<Option<Command>, ProtocolError>(e) && final(self)@ == old(
                    self,
                )@,
                Ok((q, c)) => r is Ok && final(self)@ == q && match r {
                    Ok(Some(cmd)) => c == Some(cmd@),
                    _ => c is None,
                },
            },
    {
        match self.state {
            State::ReadingArray => self.read_header(word.as_str()),
            State::ReadingBulkStringLength => {
                if self.items_left == 0 && word.unicode_len() > 0 && word.as_str().get_char(0)
                    == '*' {
                    return self.read_header(word.as_str());
                }
                match check_kind(word.as_str(), MessageType::BulkString) {
                    Err(e) => Err(e),
                    Ok(()) => {
                        self.state = State::ReadingBulkStringContent;
                        Ok(None)
                    },
                }
            },
            State::ReadingBulkStringContent => {
                let ghost p = self@;
                if self.name.is_none() {
                    self.name = Some(word);
                } else {
                    self.args.push(word);
                    assert(views(self.args@) =~= p.args.push(word@));
                }
                if self.items_left > 1 {
                    self.items_left = self.items_left - 1;
                    self.state = State::ReadingBulkStringLength;
                    Ok(None)
                } else {
                    let cmd = match &self.name {
                        Some(n) => build_command(n.as_str(), &self.args),
                        None => None,
                    };
                    self.state = State::ReadingBulkStringLength;
                    self.items_left = 0;
                    self.name = None;
                    self.args = Vec::new();
                    assert(self@.args =~= Seq::<Seq<char>>::empty());
                    Ok(cmd)
                }
            },
        }
    }
}

/// Reads every command that `message` holds, in order, up to the end of the text or the
/// first empty line. Unknown commands are skipped; a broken header fails the whole message.
pub fn handle_client_message(message: String) -> (r: Result<Vec<Command>, ProtocolError>)
    ensures
        decode(message@) is Err ==> r == Err::<Vec<Command>, ProtocolError>(
            decode(message@)->Err_0,
        ),
        decode(message@) is Ok ==> r is Ok && command_views(r->Ok_0@) == decode(message@)->Ok_0,
{
    let ghost s = message@;
    let mut roller = CharRoller::from_string(message);
    let mut parser = Parser::new();
    let mut out: Vec<Command> = Vec::new();
    let ghost mut done: Seq<Seq<char>> = Seq::empty();
    assert(command_views(out@) =~= Seq::<CommandModel>::empty());
    assert(tokens_from(s, 0) =~= done + tokens_from(s, 0));
    loop
        invariant
            roller@.0 == s,
            s == message@,
            0 <= roller@.1 <= s.len(),
            tokens_from(s, 0) == done + tokens_from(s, roller@.1),
            run(done) == Ok::<(ParserModel, Seq<CommandModel>), ProtocolError>(
                (parser@, command_views(out@)),
            ),
        decreases s.len() - roller@.1,
    {
        let ghost pos = roller@.1;
        proof {
            lemma_line_end_bounds(s, pos);
        }
        match roller.next_word() {
            None => {
                assert(tokens_from(s, pos) =~= Seq::<Seq<char>>::empty());
                assert(done + tokens_from(s, pos) =~= done);
                assert(tokens_from(s, 0) == done);
                assert(decode(s) == Ok::<Seq<CommandModel>, ProtocolError>(command_views(out@)));
                return Ok(out);
            },
            Some(w) => {
                let ghost wv = w@;
                let ghost next = done.push(wv);
                assert(next.drop_last() =~= done);
                assert(tokens_from(s, pos) == seq![wv] + tokens_from(s, after_token(s, pos)));
                assert(tokens_from(s, 0) =~= next + tokens_from(s, after_token(s, pos)));
                match parser.feed(w) {
                    Err(e) => {
                        proof {
                            lemma_run_error_stays(next, tokens_from(s, after_token(s, pos)));
                            assert(run(next) == Err::<(ParserModel, Seq<CommandModel>), ProtocolError>(e));
                            assert(decode(s) == Err::<Seq<CommandModel>, ProtocolError>(e));
                        }
                        return Err(e);
                    },
                    Ok(c) => {
                        let ghost before = out@;
                        match c {
                            Some(cmd) => {
                                out.push(cmd);
                                assert(command_views(out@) =~= command_views(before).push(
                                    cmd@,
                                ));
                            },
                            None => {},
                        }
                        proof {
                            done = next;
                        }
                    },
                }
            },
        }
    }
}

} // verus!
