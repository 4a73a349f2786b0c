//! Cuts the text of a connection into tokens at line feeds, dropping carriage returns.

use vstd::prelude::*;
use vstd::std_specs::iter::IteratorSpec;

verus! {

/// The characters of `s` with every carriage return removed.
pub open spec fn strip_cr(s: Seq<char>) -> Seq<char>
    decreases s.len(),
{
    if s.len() == 0 {
        s
    } else if s.last() == '\r' {
        strip_cr(s.drop_last())
    } else {
        strip_cr(s.drop_last()).push(s.last())
    }
}

/// Index of the first line feed of `s` at or after `i`, or the length of `s` when there is none.
pub open spec fn line_end(s: Seq<char>, i: int) -> int
    decreases s.len() - i,
{
    if i >= s.len() {
        s.len() as int
    } else if s[i] == '\n' {
        i
    } else {
        line_end(s, i + 1)
    }
}

/// The token that starts at `i`: the line up to its line feed, without carriage returns.
pub open spec fn token_at(s: Seq<char>, i: int) -> Seq<char> {
    strip_cr(s.subrange(i, line_end(s, i)))
}

/// Where reading resumes after the token at `i`: past its line feed, or at the end.
pub open spec fn after_token(s: Seq<char>, i: int) -> int {
    if line_end(s, i) < s.len() {
        line_end(s, i) + 1
    } else {
        s.len() as int
    }
}

/// What one read at `i` yields: nothing at the end of the text or for an empty line.
pub open spec fn next_token(s: Seq<char>, i: int) -> Option<Seq<char>> {
    if i >= s.len() || token_at(s, i).len() == 0 {
        None
    } else {
        Some(token_at(s, i))
    }
}

/// The tokens that successive reads from `i` yield before the first that yields nothing.
pub open spec fn tokens_from(s: Seq<char>, i: int) -> Seq<Seq<char>>
    decreases s.len() - i,
    via tokens_from_decreases
{
    if 0 <= i && next_token(s, i) is Some {
        seq![token_at(s, i)] + tokens_from(s, after_token(s, i))
    } else {
        Seq::empty()
    }
}

#[via_fn]
proof fn tokens_from_decreases(s: Seq<char>, i: int) {
    if 0 <= i && next_token(s, i) is Some {
        lemma_line_end_bounds(s, i);
    }
}

/// The line end found from `i` lies between `i` and the end of the text.
pub proof fn lemma_line_end_bounds(s: Seq<char>, i: int)
    requires
        0 <= i <= s.len(),
    ensures
        i <= line_end(s, i) <= s.len(),
        line_end(s, i) < s.len() ==> s[line_end(s, i)] == '\n',
    decreases s.len() - i,
{
    if i < s.len() && s[i] != '\n' {
        lemma_line_end_bounds(s, i + 1);
    }
}

/// The segments `segs`, each followed by a carriage return and a line feed.
pub open spec fn crlf_join(segs: Seq<Seq<char>>) -> Seq<char>
    decreases segs.len(),
{
    if segs.len() == 0 {
        Seq::empty()
    } else {
        segs[0] + seq!['\r', '\n'] + crlf_join(segs.drop_first())
    }
}

/// Whether `s` is a non-empty segment with no line terminator character in it.
pub open spec fn plain_segment(s: Seq<char>) -> bool {
    s.len() > 0 && forall|k: int| 0 <= k < s.len() ==> #[trigger] s[k] != '\r' && s[k] != '\n'
}

/// Removing carriage returns leaves a text without them unchanged.
pub proof fn lemma_strip_cr_plain(s: Seq<char>)
    requires
        forall|k: int| 0 <= k < s.len() ==> #[trigger] s[k] != '\r',
    ensures
        strip_cr(s) == s,
    decreases s.len(),
{
    if s.len() > 0 {
        lemma_strip_cr_plain(s.drop_last());
        assert(s.drop_last().push(s.last()) =~= s);
    }
}

/// Over a stretch without line feeds, the line end found is the same from either side of it.
pub proof fn lemma_line_end_skip(s: Seq<char>, i: int, j: int)
    requires
        0 <= i <= j <= s.len(),
        forall|k: int| i <= k < j ==> #[trigger] s[k] != '\n',
    ensures
        line_end(s, i) == line_end(s, j),
    decreases j - i,
{
    if i < j {
        lemma_line_end_skip(s, i + 1, j);
    }
}

/// Line ends found in the second part of a text are those of that part, moved by the first.
pub proof fn lemma_line_end_shift(p: Seq<char>, b: Seq<char>, i: int)
    requires
        0 <= i <= b.len(),
    ensures
        line_end(p + b, p.len() + i) == p.len() + line_end(b, i),
    decreases b.len() - i,
{
    if i < b.len() {
        assert((p + b)[p.len() + i] == b[i]);
        if b[i] != '\n' {
            lemma_line_end_shift(p, b, i + 1);
        }
    }
}

/// Reading a text from inside its second part yields the tokens of that part alone.
pub proof fn lemma_tokens_shift(p: Seq<char>, b: Seq<char>, i: int)
    requires
        0 <= i <= b.len(),
    ensures
        tokens_from(p + b, p.len() + i) == tokens_from(b, i),
    decreases b.len() - i,
{
    let s = p + b;
    let j = p.len() + i;
    lemma_line_end_shift(p, b, i);
    lemma_line_end_bounds(b, i);
    assert(s.subrange(j, line_end(s, j)) =~= b.subrange(i, line_end(b, i)));
    assert(token_at(s, j) == token_at(b, i));
    assert(next_token(s, j) == next_token(b, i));
    if next_token(b, i) is Some {
        assert(after_token(s, j) == p.len() + after_token(b, i));
        lemma_tokens_shift(p, b, after_token(b, i));
    }
}

/// Text made of non-empty segments, each closed by a carriage return and a line feed, reads
/// back as exactly those segments, with the terminators dropped; at its end a read yields nothing.
pub proof fn lemma_crlf_segments(segs: Seq<Seq<char>>)
    requires
        forall|k: int| 0 <= k < segs.len() ==> plain_segment(#[trigger] segs[k]),
    ensures
        tokens_from(crlf_join(segs), 0) == segs,
        next_token(crlf_join(segs), crlf_join(segs).len() as int) is None,
    decreases segs.len(),
{
    let s = crlf_join(segs);
    if segs.len() == 0 {
        assert(tokens_from(s, 0) =~= segs);
    } else {
        let seg = segs[0];
        let rest = segs.drop_first();
        assert(forall|k: int| 0 <= k < rest.len() ==> #[trigger] rest[k] == segs[k + 1]);
        lemma_crlf_segments(rest);
        let head = seg + seq!['\r', '\n'];
        let n = seg.len() as int;
        assert(s == head + crlf_join(rest));
        assert(plain_segment(seg));
        assert forall|k: int| 0 <= k < n + 1 implies #[trigger] s[k] != '\n' by {
            if k < seg.len() {
                assert(s[k] == seg[k]);
            }
        }
        lemma_line_end_skip(s, 0, n + 1);
        assert(s[n + 1] == '\n');
        assert(line_end(s, 0) == n + 1);
        assert(s.subrange(0, n + 1) =~= seg.push('\r'));
        assert(seg.push('\r').drop_last() =~= seg);
        lemma_strip_cr_plain(seg);
        assert(token_at(s, 0) == seg);
        assert(after_token(s, 0) == head.len());
        lemma_tokens_shift(head, crlf_join(rest), 0);
        assert(tokens_from(s, 0) == seq![seg] + tokens_from(crlf_join(rest), 0));
        assert(seq![seg] + rest =~= segs);
    }
}

/// A cursor over a fixed text that hands out its tokens one by one.
pub struct CharRoller {
    chars: Vec<char>,
    index: usize,
}

impl View for CharRoller {
    /// The text and the position of the cursor in it.
    type V = (Seq<char>, int);

    closed spec fn view(&self) -> (Seq<char>, int) {
        (self.chars@, self.index as int)
    }
}

/// Relies on `String::push`: the character is appended at the end.
#[verifier::external_body]
pub(crate) fn push_char(s: &mut String, c: char)
    ensures
        final(s)@ == old(s)@.push(c),
{
    s.push(c);
}

impl CharRoller {
    /// A cursor at the start of `phrase`.
    pub fn from_string(phrase: String) -> (r: CharRoller)
        ensures
            r@.0 == phrase@,
            r@.1 == 0,
    {
        let mut chars: Vec<char> = Vec::new();
        let mut it = phrase.as_str().chars();
        loop
            invariant
                chars@ + it.remaining() == phrase@,
                it.obeys_prophetic_iter_laws(),
                it.decrease() is Some,
            ensures
                chars@ == phrase@,
            decreases it.decrease()->0,
        {
            match it.next() {
                Some(c) => {
                    chars.push(c);
                },
                None => {
                    assert(chars@ + it.remaining() =~= chars@);
                    break;
                },
            }
        }
        CharRoller { chars, index: 0 }
    }

    /// Reads the next token and moves past it. Gives `None` at the end of the text,
    /// and also for an empty line, which it still moves past.
    pub fn next_word(&mut self) -> (r: Option<String>)
        ensures
            final(self)@.0 == old(self)@.0,
            r is Some <==> next_token(old(self)@.0, old(self)@.1) is Some,
            r is Some ==> next_token(old(self)@.0, old(self)@.1) == Some(r->0@),
            final(self)@.1 == if old(self)@.1 >= old(self)@.0.len() {
                old(self)@.1
            } else {
                after_token(old(self)@.0, old(self)@.1)
            },
    {
        let mut word = String::new();
        if self.index >= self.chars.len() {
            return None;
        }
        let ghost s = self.chars@;
        let ghost start = self.index as int;
        let mut pos: usize = self.index;
        while pos < self.chars.len() && self.chars[pos] != '\n'
            invariant
                self.chars@ == s,
                0 <= start <= pos <= s.len(),
                line_end(s, start) == line_end(s, pos as int),
                word@ == strip_cr(s.subrange(start, pos as int)),
            decreases s.len() - pos,
        {
            let c = self.chars[pos];
            assert(s.subrange(start, pos + 1).drop_last() =~= s.subrange(start, pos as int));
            if c != '\r' {
                push_char(&mut word, c);
            }
            pos += 1;
        }
        self.index = if pos < self.chars.len() {
            pos + 1
        } else {
            pos
        };
        if word.as_str().is_empty() {
            None
        } else {
            Some(word)
        }
    }
}

} // verus!
