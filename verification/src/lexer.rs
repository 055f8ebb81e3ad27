use vstd::prelude::*;

use crate::span::Span;
use crate::token::Token;

verus! {

// Byte values the scanner dispatches on.
pub const QUOTE: u8 = 34;
pub const HASH: u8 = 35;
pub const AMPERSAND: u8 = 38;
pub const OPEN_ROUND: u8 = 40;
pub const CLOSE_ROUND: u8 = 41;
pub const STAR: u8 = 42;
pub const PLUS: u8 = 43;
pub const COMMA: u8 = 44;
pub const MINUS: u8 = 45;
pub const DOT: u8 = 46;
pub const SLASH: u8 = 47;
pub const COLON: u8 = 58;
pub const LESS: u8 = 60;
pub const EQUALS: u8 = 61;
pub const GREATER: u8 = 62;
pub const OPEN_SQUARE: u8 = 91;
pub const BACKSLASH: u8 = 92;
pub const CLOSE_SQUARE: u8 = 93;
pub const PIPE: u8 = 124;
pub const TILDE: u8 = 126;
pub const SPACE: u8 = 32;
pub const LOWER_B: u8 = 98;
pub const UPPER_B: u8 = 66;
pub const LOWER_O: u8 = 111;
pub const UPPER_O: u8 = 79;
pub const LOWER_X: u8 = 120;
pub const UPPER_X: u8 = 88;
pub const LOWER_E: u8 = 101;
pub const UPPER_E: u8 = 69;
pub const ZERO: u8 = 48;

/// The classes of byte whose runs the scanner measures.
#[derive(Debug, Clone, Copy, PartialEq, Eq, Structural)]
pub enum ByteClass {
    /// ASCII whitespace: space, tab, newline, carriage return, vertical tab,
    /// form feed.
    Space,
    /// Anything but a newline.
    NonNewline,
    Tab,
    Digit,
    BinDigit,
    OctDigit,
    HexDigit,
    /// Letters, digits, underscore and dot: identifier continuation.
    IdentContinue,
    /// Letters, digits and underscore: directive-name continuation.
    DirectiveContinue,
}

pub open spec fn is_digit_byte(b: u8) -> bool {
    48 <= b <= 57
}

/// Letters and underscore: the bytes an identifier or directive name starts
/// with.
pub open spec fn is_name_start_byte(b: u8) -> bool {
    (65 <= b <= 90) || (97 <= b <= 122) || b == 95
}

pub open spec fn in_class(c: ByteClass, b: u8) -> bool {
    match c {
        ByteClass::Space => b == 32 || b == 9 || b == 10 || b == 13 || b == 11 || b == 12,
        ByteClass::NonNewline => b != 10,
        ByteClass::Tab => b == 9,
        ByteClass::Digit => is_digit_byte(b),
        ByteClass::BinDigit => b == 48 || b == 49,
        ByteClass::OctDigit => 48 <= b <= 55,
        ByteClass::HexDigit => is_digit_byte(b) || (65 <= b <= 70) || (97 <= b <= 102),
        ByteClass::IdentContinue => is_name_start_byte(b) || is_digit_byte(b) || b == DOT,
        ByteClass::DirectiveContinue => is_name_start_byte(b) || is_digit_byte(b),
    }
}

/// First position at or after `p` whose byte is not in class `c` (or the end
/// of `s`).
pub open spec fn run_end(s: Seq<u8>, p: int, c: ByteClass) -> int
    decreases s.len() - p,
    when 0 <= p <= s.len()
{
    if p < s.len() && in_class(c, s[p]) {
        run_end(s, p + 1, c)
    } else {
        p
    }
}

pub proof fn lemma_run_end(s: Seq<u8>, p: int, c: ByteClass)
    requires
        0 <= p <= s.len(),
    ensures
        p <= run_end(s, p, c) <= s.len(),
        run_end(s, p, c) < s.len() ==> !in_class(c, s[run_end(s, p, c)]),
        forall|q: int| p <= q < run_end(s, p, c) ==> in_class(c, s[q]),
    decreases s.len() - p,
{
    if p < s.len() && in_class(c, s[p]) {
        lemma_run_end(s, p + 1, c);
    }
}

/// Position just after the first `*/` at or after `p`, if any.
pub open spec fn block_comment_close(s: Seq<u8>, p: int) -> Option<int>
    decreases s.len() - p,
    when 0 <= p <= s.len()
{
    if p + 1 >= s.len() {
        None
    } else if s[p] == STAR && s[p + 1] == SLASH {
        Some(p + 2)
    } else {
        block_comment_close(s, p + 1)
    }
}

pub proof fn lemma_block_comment_close(s: Seq<u8>, p: int)
    requires
        0 <= p <= s.len(),
    ensures
        block_comment_close(s, p) matches Some(e) ==> p + 2 <= e <= s.len(),
    decreases s.len() - p,
{
    if p + 1 < s.len() && !(s[p] == STAR && s[p + 1] == SLASH) {
        lemma_block_comment_close(s, p + 1);
    }
}

/// String scanning state machine, starting just after the opening quote.
///
/// A quote met in normal state ends the string. A backslash makes the next
/// quote ambiguous: it may be an escaped quote (the string goes on) or a
/// plain backslash byte followed by the closing quote, so that position is
/// recorded as a fallback end (`candidate`) and scanning goes on; the longest
/// closed form wins, and an unterminated tail falls back to the candidate.
pub open spec fn string_close(s: Seq<u8>, p: int, escaped: bool, candidate: Option<int>) -> Option<
    int,
>
    decreases s.len() - p,
    when 0 <= p <= s.len()
{
    if p >= s.len() {
        candidate
    } else if !escaped {
        if s[p] == QUOTE {
            Some(p + 1)
        } else if s[p] == BACKSLASH {
            string_close(s, p + 1, true, candidate)
        } else {
            string_close(s, p + 1, false, candidate)
        }
    } else {
        if s[p] == QUOTE {
            string_close(s, p + 1, false, Some(p + 1))
        } else if s[p] == BACKSLASH {
            string_close(s, p + 1, true, candidate)
        } else {
            string_close(s, p + 1, false, candidate)
        }
    }
}

pub proof fn lemma_string_close(s: Seq<u8>, p: int, escaped: bool, candidate: Option<int>)
    requires
        0 <= p <= s.len(),
        candidate matches Some(k) ==> 0 < k <= p,
    ensures
        string_close(s, p, escaped, candidate) matches Some(e) ==> 0 < e <= s.len() && (p < e
            || candidate == Some(e)),
    decreases s.len() - p,
{
    if p < s.len() {
        if !escaped {
            if s[p] == QUOTE {
            } else {
                lemma_string_close(s, p + 1, s[p] == BACKSLASH, candidate);
            }
        } else {
            if s[p] == QUOTE {
                lemma_string_close(s, p + 1, false, Some(p + 1));
            } else {
                lemma_string_close(s, p + 1, s[p] == BACKSLASH, candidate);
            }
        }
    }
}

/// End of an exponent suffix starting at `q` (`e`/`E`, an optional sign, and
/// at least one digit); `q` itself if none is present.
pub open spec fn exp_end(s: Seq<u8>, q: int) -> int {
    if q < s.len() && (s[q] == LOWER_E || s[q] == UPPER_E) {
        let r = if q + 1 < s.len() && (s[q + 1] == PLUS || s[q + 1] == MINUS) {
            q + 2
        } else {
            q + 1
        };
        let de = run_end(s, r, ByteClass::Digit);
        if de > r {
            de
        } else {
            q
        }
    } else {
        q
    }
}

pub proof fn lemma_exp_end(s: Seq<u8>, q: int)
    requires
        0 <= q <= s.len(),
    ensures
        q <= exp_end(s, q) <= s.len(),
{
    if q < s.len() && (s[q] == LOWER_E || s[q] == UPPER_E) {
        let r = if q + 1 < s.len() && (s[q + 1] == PLUS || s[q + 1] == MINUS) {
            q + 2
        } else {
            q + 1
        };
        lemma_run_end(s, r, ByteClass::Digit);
    }
}

/// End of a number starting at the digit at `p`: a radix-prefixed form
/// (`0b`/`0o`/`0x` with at least one digit of that radix), or a decimal run
/// with an optional fraction and exponent.
pub open spec fn number_end(s: Seq<u8>, p: int) -> int {
    if s[p] == ZERO && p + 2 < s.len() && (s[p + 1] == LOWER_B || s[p + 1] == UPPER_B) && in_class(
        ByteClass::BinDigit,
        s[p + 2],
    ) {
        run_end(s, p + 2, ByteClass::BinDigit)
    } else if s[p] == ZERO && p + 2 < s.len() && (s[p + 1] == LOWER_O || s[p + 1] == UPPER_O)
        && in_class(ByteClass::OctDigit, s[p + 2]) {
        run_end(s, p + 2, ByteClass::OctDigit)
    } else if s[p] == ZERO && p + 2 < s.len() && (s[p + 1] == LOWER_X || s[p + 1] == UPPER_X)
        && in_class(ByteClass::HexDigit, s[p + 2]) {
        run_end(s, p + 2, ByteClass::HexDigit)
    } else {
        let d = run_end(s, p, ByteClass::Digit);
        if d < s.len() && s[d] == DOT {
            exp_end(s, run_end(s, d + 1, ByteClass::Digit))
        } else {
            exp_end(s, d)
        }
    }
}

pub proof fn lemma_number_end(s: Seq<u8>, p: int)
    requires
        0 <= p < s.len(),
        is_digit_byte(s[p]),
    ensures
        p < number_end(s, p) <= s.len(),
{
    lemma_run_end(s, p, ByteClass::Digit);
    if p + 2 < s.len() {
        lemma_run_end(s, p + 2, ByteClass::BinDigit);
        lemma_run_end(s, p + 2, ByteClass::OctDigit);
        lemma_run_end(s, p + 2, ByteClass::HexDigit);
    }
    let d = run_end(s, p, ByteClass::Digit);
    assert(run_end(s, p, ByteClass::Digit) == run_end(s, p + 1, ByteClass::Digit));
    lemma_run_end(s, p + 1, ByteClass::Digit);
    if d < s.len() && s[d] == DOT {
        lemma_run_end(s, d + 1, ByteClass::Digit);
        lemma_exp_end(s, run_end(s, d + 1, ByteClass::Digit));
    } else {
        lemma_exp_end(s, d);
    }
}

/// The token starting at position `p` and the position just after it, by
/// maximal munch over the token patterns; `None` when no pattern matches at
/// `p`.
pub open spec fn next_token(s: Seq<u8>, p: int) -> Option<(Token, int)> {
    let b = s[p];
    if b == SLASH {
        if p + 1 < s.len() && s[p + 1] == SLASH {
            Some((Token::LineComment, run_end(s, p, ByteClass::NonNewline)))
        } else if p + 1 < s.len() && s[p + 1] == STAR {
            match block_comment_close(s, p + 2) {
                Some(e) => Some((Token::BlockComment, e)),
                None => Some((Token::MiscBinaryOperator, p + 1)),
            }
        } else {
            Some((Token::MiscBinaryOperator, p + 1))
        }
    } else if b == HASH {
        if p + 1 < s.len() && s[p + 1] == SPACE {
            Some((Token::LineComment, run_end(s, p, ByteClass::NonNewline)))
        } else {
            Some((Token::MiscUnaryOperator, p + 1))
        }
    } else if b == DOT {
        if p + 1 < s.len() && is_digit_byte(s[p + 1]) {
            Some((Token::Number, exp_end(s, run_end(s, p + 1, ByteClass::Digit))))
        } else if p + 1 < s.len() && is_name_start_byte(s[p + 1]) {
            Some((Token::Directive, run_end(s, p + 2, ByteClass::DirectiveContinue)))
        } else {
            Some((Token::Identifier, p + 1))
        }
    } else if is_name_start_byte(b) {
        Some((Token::Identifier, run_end(s, p + 1, ByteClass::IdentContinue)))
    } else if is_digit_byte(b) {
        Some((Token::Number, number_end(s, p)))
    } else if b == QUOTE {
        match string_close(s, p + 1, false, None) {
            Some(e) => Some((Token::String, e)),
            None => None,
        }
    } else if b == COLON {
        Some((Token::Colon, p + 1))
    } else if b == COMMA {
        Some((Token::Comma, p + 1))
    } else if b == OPEN_ROUND {
        Some((Token::OpenRound, p + 1))
    } else if b == CLOSE_ROUND {
        Some((Token::CloseRound, p + 1))
    } else if b == OPEN_SQUARE {
        Some((Token::OpenSquare, p + 1))
    } else if b == CLOSE_SQUARE {
        Some((Token::CloseSquare, p + 1))
    } else if b == PIPE || b == AMPERSAND || b == PLUS || b == STAR {
        Some((Token::MiscBinaryOperator, p + 1))
    } else if b == LESS {
        if p + 1 < s.len() && s[p + 1] == LESS {
            Some((Token::MiscBinaryOperator, p + 2))
        } else {
            None
        }
    } else if b == GREATER {
        if p + 1 < s.len() && s[p + 1] == GREATER {
            Some((Token::MiscBinaryOperator, p + 2))
        } else {
            None
        }
    } else if b == TILDE || b == EQUALS || b == BACKSLASH {
        Some((Token::MiscUnaryOperator, p + 1))
    } else if b == MINUS {
        Some((Token::MiscBinaryOrUnaryOperator, p + 1))
    } else {
        None
    }
}

pub proof fn lemma_next_token(s: Seq<u8>, p: int)
    requires
        0 <= p < s.len(),
    ensures
        next_token(s, p) matches Some(r) ==> p < r.1 <= s.len(),
{
    lemma_run_end(s, p, ByteClass::NonNewline);
    lemma_run_end(s, p + 1, ByteClass::NonNewline);
    if p + 2 <= s.len() {
        lemma_block_comment_close(s, p + 2);
        lemma_run_end(s, p + 2, ByteClass::DirectiveContinue);
    }
    lemma_run_end(s, p + 1, ByteClass::Digit);
    lemma_exp_end(s, run_end(s, p + 1, ByteClass::Digit));
    lemma_run_end(s, p + 1, ByteClass::IdentContinue);
    lemma_string_close(s, p + 1, false, None);
    if is_digit_byte(s[p]) {
        lemma_number_end(s, p);
    }
}

/// The token sequence of `s` from position `p` on, with each token's
/// half-open byte range, or the position of the first unrecognizable input.
pub open spec fn lex_from(s: Seq<u8>, p: int) -> Result<Seq<(Token, int, int)>, int>
    decreases s.len() - p,
    when 0 <= p <= s.len()
    via lex_from_decreases
{
    let q = run_end(s, p, ByteClass::Space);
    if q >= s.len() {
        Ok(Seq::empty())
    } else {
        match next_token(s, q) {
            None => Err(q),
            Some((t, e)) => match lex_from(s, e) {
                Ok(rest) => Ok(seq![(t, q, e)].add(rest)),
                Err(k) => Err(k),
            },
        }
    }
}

#[via_fn]
proof fn lex_from_decreases(s: Seq<u8>, p: int) {
    lemma_run_end(s, p, ByteClass::Space);
    let q = run_end(s, p, ByteClass::Space);
    if q < s.len() {
        lemma_next_token(s, q);
    }
}

/// The token sequence of the whole input.
pub open spec fn lex(s: Seq<u8>) -> Result<Seq<(Token, int, int)>, int> {
    lex_from(s, 0)
}

/// The spans of a lexed token sequence are in bounds, non-empty, and
/// monotonically non-decreasing, and every token lies at or after `p`.
pub proof fn lemma_lex_from_spans(s: Seq<u8>, p: int)
    requires
        0 <= p <= s.len(),
        lex_from(s, p) is Ok,
    ensures
        forall|i: int|
            0 <= i < lex_from(s, p)->Ok_0.len() ==> {
                let e = #[trigger] lex_from(s, p)->Ok_0[i];
                p <= e.1 < e.2 <= s.len()
            },
        forall|i: int|
            0 <= i && i + 1 < lex_from(s, p)->Ok_0.len() ==> (#[trigger] lex_from(s, p)->Ok_0[i]).2
                <= lex_from(s, p)->Ok_0[i + 1].1,
    decreases s.len() - p,
{
    lemma_run_end(s, p, ByteClass::Space);
    let q = run_end(s, p, ByteClass::Space);
    if q < s.len() {
        lemma_next_token(s, q);
        let (t, e) = next_token(s, q)->Some_0;
        assert(q < e <= s.len());
        lemma_lex_from_spans(s, e);
        let rest = lex_from(s, e)->Ok_0;
        let whole = lex_from(s, p)->Ok_0;
        assert(whole == seq![(t, q, e)].add(rest));
        assert(whole[0] == (t, q, e));
        assert forall|i: int| 0 <= i < rest.len() implies #[trigger] whole[i + 1] == rest[i] by {
            assert(seq![(t, q, e)].add(rest)[i + 1] == rest[i]);
        }
        assert forall|i: int| 0 <= i && i + 1 < whole.len() implies (#[trigger] whole[i]).2 <= whole[i
            + 1].1 by {
            assert(whole[i + 1] == rest[i]);
            if i == 0 {
                assert(e <= rest[0].1);
            } else {
                assert(whole[i] == rest[i - 1]);
            }
        }
    }
}

/// Between the tokens of a successful scan lies nothing but whitespace: the
/// bytes before the first token, between consecutive tokens, and after the
/// last one are all of the whitespace class. Together with the span facts
/// this makes the token kinds and texts the whole content of the input.
pub proof fn lemma_lex_from_gaps(s: Seq<u8>, p: int)
    requires
        0 <= p <= s.len(),
        lex_from(s, p) is Ok,
    ensures
        ({
            let ts = lex_from(s, p)->Ok_0;
            &&& forall|q: int|
                p <= q < (if ts.len() == 0 {
                    s.len() as int
                } else {
                    ts[0].1
                }) ==> in_class(ByteClass::Space, s[q])
            &&& forall|i: int, q: int|
                0 <= i < ts.len() && (#[trigger] ts[i]).2 <= q < (if i + 1 == ts.len() {
                    s.len() as int
                } else {
                    ts[i + 1].1
                }) ==> in_class(ByteClass::Space, #[trigger] s[q])
        }),
    decreases s.len() - p,
{
    lemma_run_end(s, p, ByteClass::Space);
    let q0 = run_end(s, p, ByteClass::Space);
    let ts = lex_from(s, p)->Ok_0;
    if q0 < s.len() {
        lemma_next_token(s, q0);
        let (t, e) = next_token(s, q0)->Some_0;
        lemma_lex_from_gaps(s, e);
        let rest = lex_from(s, e)->Ok_0;
        assert(ts == seq![(t, q0, e)].add(rest));
        assert(ts[0] == (t, q0, e));
        assert forall|i: int| 0 <= i < rest.len() implies #[trigger] ts[i + 1] == rest[i] by {
            assert(seq![(t, q0, e)].add(rest)[i + 1] == rest[i]);
        }
        assert forall|i: int, q: int|
            0 <= i < ts.len() && (#[trigger] ts[i]).2 <= q < (if i + 1 == ts.len() {
                s.len() as int
            } else {
                ts[i + 1].1
            }) implies in_class(ByteClass::Space, #[trigger] s[q]) by {
            if i == 0 {
                if rest.len() > 0 {
                    assert(ts[1] == rest[0]);
                }
            } else {
                assert(ts[i] == rest[i - 1]);
                if i + 1 < ts.len() {
                    assert(ts[i + 1] == rest[i]);
                }
            }
        }
    }
}

/// Same facts about the whole-input token sequence.
pub proof fn lemma_lex_spans(s: Seq<u8>)
    requires
        lex(s) is Ok,
    ensures
        forall|i: int|
            0 <= i < lex(s)->Ok_0.len() ==> {
                let e = #[trigger] lex(s)->Ok_0[i];
                0 <= e.1 < e.2 <= s.len()
            },
        forall|i: int|
            0 <= i && i + 1 < lex(s)->Ok_0.len() ==> (#[trigger] lex(s)->Ok_0[i]).2 <= lex(
                s,
            )->Ok_0[i + 1].1,
{
    lemma_lex_from_spans(s, 0);
}

/// The error position of a failed scan: at or after the start, in bounds,
/// not whitespace, and matching no token pattern.
pub proof fn lemma_lex_from_err(s: Seq<u8>, p: int)
    requires
        0 <= p <= s.len(),
        lex_from(s, p) is Err,
    ensures
        ({
            let k = lex_from(s, p)->Err_0;
            &&& p <= k < s.len()
            &&& !in_class(ByteClass::Space, s[k])
            &&& next_token(s, k) is None
        }),
    decreases s.len() - p,
{
    lemma_run_end(s, p, ByteClass::Space);
    let q = run_end(s, p, ByteClass::Space);
    if q < s.len() {
        match next_token(s, q) {
            None => {},
            Some((t, e)) => {
                lemma_next_token(s, q);
                lemma_lex_from_err(s, e);
            },
        }
    }
}

/// A run that ends at or before `m` ends at the same place in the prefix
/// `s[..m]`.
proof fn lemma_run_end_prefix(s: Seq<u8>, m: int, p: int, c: ByteClass)
    requires
        0 <= p <= m <= s.len(),
        run_end(s, p, c) <= m,
    ensures
        run_end(s.subrange(0, m), p, c) == run_end(s, p, c),
    decreases m - p,
{
    let t = s.subrange(0, m);
    if p < s.len() && in_class(c, s[p]) {
        lemma_run_end(s, p + 1, c);
        assert(run_end(s, p, c) == run_end(s, p + 1, c));
        assert(p < m);
        assert(t[p] == s[p]);
        lemma_run_end_prefix(s, m, p + 1, c);
    } else {
        if p < m {
            assert(t[p] == s[p]);
        }
    }
}

/// A block-comment close search whose answer lies inside the prefix gives
/// the same answer on the prefix.
proof fn lemma_block_close_prefix(s: Seq<u8>, m: int, p: int)
    requires
        0 <= p <= m <= s.len(),
        block_comment_close(s, p) matches Some(e) ==> e <= m,
    ensures
        block_comment_close(s.subrange(0, m), p) == block_comment_close(s, p),
    decreases m - p,
{
    let t = s.subrange(0, m);
    lemma_block_comment_close(s, p);
    if p + 1 >= s.len() {
    } else if s[p] == STAR && s[p + 1] == SLASH {
        assert(p + 2 <= m);
        assert(t[p] == s[p] && t[p + 1] == s[p + 1]);
    } else {
        lemma_block_comment_close(s, p + 1);
        if p + 1 >= m {
            assert(block_comment_close(s, p + 1) is None);
        } else {
            assert(t[p] == s[p] && t[p + 1] == s[p + 1]);
            lemma_block_close_prefix(s, m, p + 1);
        }
    }
}

/// A string scan whose answer lies inside the prefix gives the same answer
/// on the prefix.
proof fn lemma_string_close_prefix(
    s: Seq<u8>,
    m: int,
    p: int,
    escaped: bool,
    candidate: Option<int>,
)
    requires
        0 <= p <= s.len(),
        p <= m <= s.len(),
        candidate matches Some(c) ==> 0 < c <= p && c <= m,
        string_close(s, p, escaped, candidate) matches Some(e) ==> e <= m,
        string_close(s, p, escaped, candidate) is Some,
    ensures
        string_close(s.subrange(0, m), p, escaped, candidate) == string_close(
            s,
            p,
            escaped,
            candidate,
        ),
    decreases s.len() - p,
{
    let t = s.subrange(0, m);
    lemma_string_close(s, p, escaped, candidate);
    let e = string_close(s, p, escaped, candidate)->Some_0;
    if p >= s.len() {
        assert(p == m);
    } else if p == m {
        // The scan stands at the prefix end but still returns a position not
        // beyond it: only the fallback candidate can be that.
        assert(e <= p);
        assert(candidate == Some(e));
    } else {
        assert(t[p] == s[p]);
        if !escaped {
            if s[p] == QUOTE {
            } else {
                lemma_string_close_prefix(s, m, p + 1, s[p] == BACKSLASH, candidate);
            }
        } else {
            if s[p] == QUOTE {
                lemma_string_close_prefix(s, m, p + 1, false, Some(p + 1));
            } else {
                lemma_string_close_prefix(s, m, p + 1, s[p] == BACKSLASH, candidate);
            }
        }
    }
}

/// An exponent scan whose answer lies inside the prefix gives the same
/// answer on the prefix.
proof fn lemma_exp_end_prefix(s: Seq<u8>, m: int, q: int)
    requires
        0 <= q <= m <= s.len(),
        exp_end(s, q) <= m,
    ensures
        exp_end(s.subrange(0, m), q) == exp_end(s, q),
{
    let t = s.subrange(0, m);
    lemma_exp_end(s, q);
    if q < s.len() && (s[q] == LOWER_E || s[q] == UPPER_E) {
        if q == m {
            // The full scan can only have fallen back to `q` here.
            let r = if q + 1 < s.len() && (s[q + 1] == PLUS || s[q + 1] == MINUS) {
                q + 2
            } else {
                q + 1
            };
            lemma_run_end(s, r, ByteClass::Digit);
            assert(exp_end(s, q) == q);
        } else {
            assert(t[q] == s[q]);
            let r = if q + 1 < s.len() && (s[q + 1] == PLUS || s[q + 1] == MINUS) {
                q + 2
            } else {
                q + 1
            };
            lemma_run_end(s, r, ByteClass::Digit);
            let de = run_end(s, r, ByteClass::Digit);
            if q + 1 < m {
                assert(t[q + 1] == s[q + 1]);
                if de > r {
                    // An exponent matched; it ends inside the prefix.
                    assert(exp_end(s, q) == de);
                    lemma_run_end_prefix(s, m, r, ByteClass::Digit);
                } else {
                    // No digits followed: in the prefix the same run is
                    // empty, whether or not it is cut short at `m`.
                    if r <= m {
                        lemma_run_end_prefix(s, m, r, ByteClass::Digit);
                    }
                }
            } else {
                // `q + 1 == m`: the prefix ends right after the `e`. The
                // full scan fell back to `q`, for its result is at most `m`;
                // so does the prefix scan, whose digit run is empty.
                assert(q + 1 == m);
                if de > r {
                    assert(exp_end(s, q) == de);
                    assert(de > m);
                    assert(false);
                }
                lemma_run_end(t, q + 1, ByteClass::Digit);
                if q + 2 <= m {
                    lemma_run_end(t, q + 2, ByteClass::Digit);
                }
            }
        }
    } else {
        if q < m {
            assert(t[q] == s[q]);
        }
    }
}

/// A number scan whose answer lies inside the prefix gives the same answer
/// on the prefix.
proof fn lemma_number_end_prefix(s: Seq<u8>, m: int, p: int)
    requires
        0 <= p < m <= s.len(),
        is_digit_byte(s[p]),
        number_end(s, p) <= m,
    ensures
        number_end(s.subrange(0, m), p) == number_end(s, p),
{
    let t = s.subrange(0, m);
    assert(t[p] == s[p]);
    lemma_number_end(s, p);
    if s[p] == ZERO && p + 2 < s.len() && (s[p + 1] == LOWER_B || s[p + 1] == UPPER_B) && in_class(
        ByteClass::BinDigit,
        s[p + 2],
    ) {
        lemma_run_end(s, p + 2, ByteClass::BinDigit);
        lemma_run_end(s, p + 3, ByteClass::BinDigit);
        assert(p + 3 <= run_end(s, p + 2, ByteClass::BinDigit) <= m);
        assert(t[p + 1] == s[p + 1] && t[p + 2] == s[p + 2]);
        lemma_run_end_prefix(s, m, p + 2, ByteClass::BinDigit);
    } else if s[p] == ZERO && p + 2 < s.len() && (s[p + 1] == LOWER_O || s[p + 1] == UPPER_O)
        && in_class(ByteClass::OctDigit, s[p + 2]) {
        lemma_run_end(s, p + 2, ByteClass::OctDigit);
        lemma_run_end(s, p + 3, ByteClass::OctDigit);
        assert(t[p + 1] == s[p + 1] && t[p + 2] == s[p + 2]);
        lemma_run_end_prefix(s, m, p + 2, ByteClass::OctDigit);
    } else if s[p] == ZERO && p + 2 < s.len() && (s[p + 1] == LOWER_X || s[p + 1] == UPPER_X)
        && in_class(ByteClass::HexDigit, s[p + 2]) {
        lemma_run_end(s, p + 2, ByteClass::HexDigit);
        lemma_run_end(s, p + 3, ByteClass::HexDigit);
        assert(t[p + 1] == s[p + 1] && t[p + 2] == s[p + 2]);
        lemma_run_end_prefix(s, m, p + 2, ByteClass::HexDigit);
    } else {
        // The prefix cannot see a radix form either: a radix form inside it
        // would be one in the full input too.
        assert(!(t[p] == ZERO && p + 2 < t.len() && (t[p + 1] == LOWER_B || t[p + 1] == UPPER_B)
            && in_class(ByteClass::BinDigit, t[p + 2])));
        assert(!(t[p] == ZERO && p + 2 < t.len() && (t[p + 1] == LOWER_O || t[p + 1] == UPPER_O)
            && in_class(ByteClass::OctDigit, t[p + 2])));
        assert(!(t[p] == ZERO && p + 2 < t.len() && (t[p + 1] == LOWER_X || t[p + 1] == UPPER_X)
            && in_class(ByteClass::HexDigit, t[p + 2])));
        lemma_run_end(s, p, ByteClass::Digit);
        let d = run_end(s, p, ByteClass::Digit);
        if d < s.len() && s[d] == DOT {
            let f = run_end(s, d + 1, ByteClass::Digit);
            lemma_run_end(s, d + 1, ByteClass::Digit);
            lemma_exp_end(s, f);
            assert(number_end(s, p) == exp_end(s, f));
            assert(d < m);
            lemma_run_end_prefix(s, m, p, ByteClass::Digit);
            assert(t[d] == s[d]);
            lemma_run_end_prefix(s, m, d + 1, ByteClass::Digit);
            lemma_exp_end_prefix(s, m, f);
        } else {
            lemma_exp_end(s, d);
            assert(number_end(s, p) == exp_end(s, d));
            lemma_run_end_prefix(s, m, p, ByteClass::Digit);
            if d < m {
                assert(t[d] == s[d]);
            }
            lemma_exp_end_prefix(s, m, d);
        }
    }
}

/// A token that ends inside the prefix is scanned identically on the
/// prefix.
proof fn lemma_next_token_prefix(s: Seq<u8>, m: int, q: int)
    requires
        0 <= q < m <= s.len(),
        next_token(s, q) matches Some(r) ==> r.1 <= m,
        next_token(s, q) is Some,
    ensures
        next_token(s.subrange(0, m), q) == next_token(s, q),
{
    let t = s.subrange(0, m);
    assert(t[q] == s[q]);
    lemma_next_token(s, q);
    let b = s[q];
    let e = next_token(s, q)->Some_0.1;
    if b == SLASH || b == HASH {
        if q + 1 < m {
            assert(t[q + 1] == s[q + 1]);
        }
        if b == SLASH && q + 1 < s.len() && s[q + 1] == SLASH {
            lemma_run_end(s, q, ByteClass::NonNewline);
            lemma_run_end_prefix(s, m, q, ByteClass::NonNewline);
        } else if b == SLASH && q + 1 < s.len() && s[q + 1] == STAR {
            lemma_block_comment_close(s, q + 2);
            match block_comment_close(s, q + 2) {
                Some(c) => {
                    assert(q + 1 < m);
                    lemma_block_close_prefix(s, m, q + 2);
                },
                None => {
                    if q + 1 < m {
                        assert(q + 2 <= m);
                        lemma_block_close_prefix(s, m, q + 2);
                    }
                },
            }
        } else if b == HASH && q + 1 < s.len() && s[q + 1] == SPACE {
            lemma_run_end(s, q, ByteClass::NonNewline);
            lemma_run_end_prefix(s, m, q, ByteClass::NonNewline);
        }
    } else if b == DOT {
        if q + 1 < m {
            assert(t[q + 1] == s[q + 1]);
        }
        if q + 1 < s.len() && is_digit_byte(s[q + 1]) {
            let f = run_end(s, q + 1, ByteClass::Digit);
            lemma_run_end(s, q + 1, ByteClass::Digit);
            lemma_exp_end(s, f);
            assert(q + 1 < m);
            lemma_run_end_prefix(s, m, q + 1, ByteClass::Digit);
            lemma_exp_end_prefix(s, m, f);
        } else if q + 1 < s.len() && is_name_start_byte(s[q + 1]) {
            lemma_run_end(s, q + 2, ByteClass::DirectiveContinue);
            assert(q + 1 < m);
            lemma_run_end_prefix(s, m, q + 2, ByteClass::DirectiveContinue);
        }
    } else if is_name_start_byte(b) {
        lemma_run_end(s, q + 1, ByteClass::IdentContinue);
        lemma_run_end_prefix(s, m, q + 1, ByteClass::IdentContinue);
    } else if is_digit_byte(b) {
        lemma_number_end_prefix(s, m, q);
    } else if b == QUOTE {
        lemma_string_close(s, q + 1, false, None);
        lemma_string_close_prefix(s, m, q + 1, false, None);
    } else if b == LESS || b == GREATER {
        assert(q + 1 < m);
        assert(t[q + 1] == s[q + 1]);
    }
}

/// Law (error locality, prefix half): when the scan fails, the input before
/// the reported offset lexes cleanly on its own.
pub proof fn lemma_lex_prefix_ok(s: Seq<u8>, p: int)
    requires
        lex_from(s, p) is Err,
        0 <= p <= s.len(),
    ensures
        lex_from(s.subrange(0, lex_from(s, p)->Err_0), p) is Ok,
    decreases s.len() - p,
{
    let k = lex_from(s, p)->Err_0;
    let t = s.subrange(0, k);
    lemma_lex_from_err(s, p);
    lemma_run_end(s, p, ByteClass::Space);
    let q = run_end(s, p, ByteClass::Space);
    match next_token(s, q) {
        None => {
            assert(k == q);
            lemma_run_end_prefix(s, k, p, ByteClass::Space);
            assert(run_end(t, p, ByteClass::Space) == q);
        },
        Some((tk, e)) => {
            lemma_next_token(s, q);
            assert(lex_from(s, e) is Err && lex_from(s, e)->Err_0 == k);
            lemma_lex_from_err(s, e);
            assert(e <= k);
            lemma_run_end_prefix(s, k, p, ByteClass::Space);
            lemma_next_token_prefix(s, k, q);
            lemma_lex_prefix_ok(s, e);
        },
    }
}

/// Spec-level image of an executable token list.
pub open spec fn token_entries(v: Seq<(Token, Span)>) -> Seq<(Token, int, int)> {
    v.map_values(|e: (Token, Span)| (e.0, e.1.start as int, e.1.end as int))
}

pub fn byte_in_class(c: ByteClass, b: u8) -> (r: bool)
    ensures
        r == in_class(c, b),
{
    match c {
        ByteClass::Space => b == 32 || b == 9 || b == 10 || b == 13 || b == 11 || b == 12,
        ByteClass::NonNewline => b != 10,
        ByteClass::Tab => b == 9,
        ByteClass::Digit => 48 <= b && b <= 57,
        ByteClass::BinDigit => b == 48 || b == 49,
        ByteClass::OctDigit => 48 <= b && b <= 55,
        ByteClass::HexDigit => (48 <= b && b <= 57) || (65 <= b && b <= 70) || (97 <= b && b
            <= 102),
        ByteClass::IdentContinue => (65 <= b && b <= 90) || (97 <= b && b <= 122) || b == 95 || (48
            <= b && b <= 57) || b == DOT,
        ByteClass::DirectiveContinue => (65 <= b && b <= 90) || (97 <= b && b <= 122) || b == 95
            || (48 <= b && b <= 57),
    }
}

/// Advance from `from` over bytes of class `c`.
pub fn scan_run(s: &[u8], from: usize, c: ByteClass) -> (r: usize)
    requires
        from <= s@.len(),
    ensures
        r == run_end(s@, from as int, c),
        from <= r <= s@.len(),
{
    proof {
        lemma_run_end(s@, from as int, c);
    }
    let mut i = from;
    while i < s.len() && byte_in_class(c, s[i])
        invariant
            from <= i <= s@.len(),
            run_end(s@, from as int, c) == run_end(s@, i as int, c),
        decreases s@.len() - i,
    {
        i = i + 1;
    }
    i
}

fn find_block_comment_close(s: &[u8], p: usize) -> (r: Option<usize>)
    requires
        p <= s@.len(),
        s@.len() < 0xFFFF_FFFF,
    ensures
        block_comment_close(s@, p as int) == match r {
            Some(e) => Some(e as int),
            None => None::<int>,
        },
        r matches Some(e) ==> p + 2 <= e <= s@.len(),
{
    let mut i = p;
    while i + 1 < s.len()
        invariant
            p <= i <= s@.len(),
            s@.len() < 0xFFFF_FFFF,
            block_comment_close(s@, p as int) == block_comment_close(s@, i as int),
        decreases s@.len() - i,
    {
        if s[i] == STAR && s[i + 1] == SLASH {
            return Some(i + 2);
        }
        i = i + 1;
    }
    None
}

fn find_string_close(s: &[u8], p: usize) -> (r: Option<usize>)
    requires
        p <= s@.len(),
        s@.len() < 0xFFFF_FFFF,
    ensures
        string_close(s@, p as int, false, None) == match r {
            Some(e) => Some(e as int),
            None => None::<int>,
        },
        r matches Some(e) ==> 0 < e <= s@.len(),
{
    proof {
        lemma_string_close(s@, p as int, false, None);
    }
    let ghost candidate0: Option<int> = None;
    let mut candidate: Option<usize> = None;
    let mut escaped: bool = false;
    let mut i = p;
    while i < s.len()
        invariant
            p <= i <= s@.len(),
            s@.len() < 0xFFFF_FFFF,
            string_close(s@, p as int, false, candidate0) == string_close(
                s@,
                i as int,
                escaped,
                match candidate {
                    Some(k) => Some(k as int),
                    None => None::<int>,
                },
            ),
            candidate0 == None::<int>,
            candidate matches Some(k) ==> 0 < k <= s@.len(),
        decreases s@.len() - i,
    {
        let b = s[i];
        if !escaped {
            if b == QUOTE {
                return Some(i + 1);
            }
            escaped = b == BACKSLASH;
        } else {
            if b == QUOTE {
                candidate = Some(i + 1);
                escaped = false;
            } else {
                escaped = b == BACKSLASH;
            }
        }
        i = i + 1;
    }
    candidate
}

fn scan_exponent(s: &[u8], q: usize) -> (r: usize)
    requires
        q <= s@.len(),
    ensures
        r == exp_end(s@, q as int),
        q <= r <= s@.len(),
{
    proof {
        lemma_exp_end(s@, q as int);
    }
    if q < s.len() && (s[q] == LOWER_E || s[q] == UPPER_E) {
        let r0 = if q + 1 < s.len() && (s[q + 1] == PLUS || s[q + 1] == MINUS) {
            q + 2
        } else {
            q + 1
        };
        let de = scan_run(s, r0, ByteClass::Digit);
        if de > r0 {
            de
        } else {
            q
        }
    } else {
        q
    }
}

fn scan_number(s: &[u8], p: usize) -> (r: usize)
    requires
        p < s@.len(),
        s@.len() < 0xFFFF_FFFF,
        is_digit_byte(s@[p as int]),
    ensures
        r == number_end(s@, p as int),
        p < r <= s@.len(),
{
    proof {
        lemma_number_end(s@, p as int);
    }
    let n = s.len();
    if s[p] == ZERO && p + 2 < n && (s[p + 1] == LOWER_B || s[p + 1] == UPPER_B) && byte_in_class(
        ByteClass::BinDigit,
        s[p + 2],
    ) {
        scan_run(s, p + 2, ByteClass::BinDigit)
    } else if s[p] == ZERO && p + 2 < n && (s[p + 1] == LOWER_O || s[p + 1] == UPPER_O)
        && byte_in_class(ByteClass::OctDigit, s[p + 2]) {
        scan_run(s, p + 2, ByteClass::OctDigit)
    } else if s[p] == ZERO && p + 2 < n && (s[p + 1] == LOWER_X || s[p + 1] == UPPER_X)
        && byte_in_class(ByteClass::HexDigit, s[p + 2]) {
        scan_run(s, p + 2, ByteClass::HexDigit)
    } else {
        let d = scan_run(s, p, ByteClass::Digit);
        let f = if d < n && s[d] == DOT {
            scan_run(s, d + 1, ByteClass::Digit)
        } else {
            d
        };
        scan_exponent(s, f)
    }
}

/// Scan the single token starting at `p`, by maximal munch; `None` when no
/// token pattern matches there.
fn next_token_at(s: &[u8], p: usize) -> (r: Option<(Token, usize)>)
    requires
        p < s@.len(),
        s@.len() < 0xFFFF_FFFF,
    ensures
        next_token(s@, p as int) == match r {
            Some((t, e)) => Some((t, e as int)),
            None => None::<(Token, int)>,
        },
        r matches Some((t, e)) ==> p < e <= s@.len(),
{
    proof {
        lemma_next_token(s@, p as int);
    }
    let n = s.len();
    let b = s[p];
    if b == SLASH {
        if p + 1 < n && s[p + 1] == SLASH {
            Some((Token::LineComment, scan_run(s, p, ByteClass::NonNewline)))
        } else if p + 1 < n && s[p + 1] == STAR {
            match find_block_comment_close(s, p + 2) {
                Some(e) => Some((Token::BlockComment, e)),
                None => Some((Token::MiscBinaryOperator, p + 1)),
            }
        } else {
            Some((Token::MiscBinaryOperator, p + 1))
        }
    } else if b == HASH {
        if p + 1 < n && s[p + 1] == SPACE {
            Some((Token::LineComment, scan_run(s, p, ByteClass::NonNewline)))
        } else {
            Some((Token::MiscUnaryOperator, p + 1))
        }
    } else if b == DOT {
        if p + 1 < n && 48 <= s[p + 1] && s[p + 1] <= 57 {
            Some((Token::Number, scan_exponent(s, scan_run(s, p + 1, ByteClass::Digit))))
        } else if p + 1 < n && ((65 <= s[p + 1] && s[p + 1] <= 90) || (97 <= s[p + 1] && s[p + 1]
            <= 122) || s[p + 1] == 95) {
            Some((Token::Directive, scan_run(s, p + 2, ByteClass::DirectiveContinue)))
        } else {
            Some((Token::Identifier, p + 1))
        }
    } else if (65 <= b && b <= 90) || (97 <= b && b <= 122) || b == 95 {
        Some((Token::Identifier, scan_run(s, p + 1, ByteClass::IdentContinue)))
    } else if 48 <= b && b <= 57 {
        Some((Token::Number, scan_number(s, p)))
    } else if b == QUOTE {
        match find_string_close(s, p + 1) {
            Some(e) => Some((Token::String, e)),
            None => None,
        }
    } else if b == COLON {
        Some((Token::Colon, p + 1))
    } else if b == COMMA {
        Some((Token::Comma, p + 1))
    } else if b == OPEN_ROUND {
        Some((Token::OpenRound, p + 1))
    } else if b == CLOSE_ROUND {
        Some((Token::CloseRound, p + 1))
    } else if b == OPEN_SQUARE {
        Some((Token::OpenSquare, p + 1))
    } else if b == CLOSE_SQUARE {
        Some((Token::CloseSquare, p + 1))
    } else if b == PIPE || b == AMPERSAND || b == PLUS || b == STAR {
        Some((Token::MiscBinaryOperator, p + 1))
    } else if b == LESS {
        if p + 1 < n && s[p + 1] == LESS {
            Some((Token::MiscBinaryOperator, p + 2))
        } else {
            None
        }
    } else if b == GREATER {
        if p + 1 < n && s[p + 1] == GREATER {
            Some((Token::MiscBinaryOperator, p + 2))
        } else {
            None
        }
    } else if b == TILDE || b == EQUALS || b == BACKSLASH {
        Some((Token::MiscUnaryOperator, p + 1))
    } else if b == MINUS {
        Some((Token::MiscBinaryOrUnaryOperator, p + 1))
    } else {
        None
    }
}

/// Scan the whole input into tokens with byte spans; whitespace between
/// tokens is skipped, and the first unrecognizable byte aborts the scan with
/// its position.
pub fn tokenize(source: &[u8]) -> (r: Result<Vec<(Token, Span)>, Span>)
    requires
        source@.len() < 0xFFFF_FFFF,
    ensures
        match r {
            Ok(v) => lex(source@) == Ok::<_, int>(token_entries(v@)),
            Err(sp) => lex(source@) == Err::<Seq<(Token, int, int)>, int>(sp.start as int)
                && sp.end == sp.start + 1 && sp.start < source@.len(),
        },
{
    let n = source.len();
    let mut acc: Vec<(Token, Span)> = Vec::new();
    let mut p: usize = 0;
    proof {
        assert(token_entries(acc@) =~= Seq::<(Token, int, int)>::empty());
        assert(lex_from(source@, 0) is Ok ==> token_entries(acc@).add(
            lex_from(source@, 0)->Ok_0,
        ) =~= lex_from(source@, 0)->Ok_0);
    }
    loop
        invariant
            p <= n,
            n == source@.len(),
            n < 0xFFFF_FFFF,
            lex(source@) == match lex_from(source@, p as int) {
                Ok(ts) => Ok::<_, int>(token_entries(acc@).add(ts)),
                Err(k) => Err::<Seq<(Token, int, int)>, int>(k),
            },
        decreases n - p,
    {
        let q = scan_run(source, p, ByteClass::Space);
        if q >= n {
            proof {
                assert(token_entries(acc@).add(Seq::empty()) =~= token_entries(acc@));
            }
            return Ok(acc);
        }
        match next_token_at(source, q) {
            None => {
                return Err(Span { start: q as u32, end: (q + 1) as u32 });
            },
            Some((t, e)) => {
                let ghost old_acc = acc@;
                acc.push((t, Span { start: q as u32, end: e as u32 }));
                proof {
                    let entry = (t, q as int, e as int);
                    assert(token_entries(acc@) =~= token_entries(old_acc).push(entry));
                    match lex_from(source@, e as int) {
                        Ok(rest) => {
                            assert(lex_from(source@, p as int) == Ok::<_, int>(
                                seq![entry].add(rest),
                            ));
                            assert(token_entries(old_acc).add(seq![entry].add(rest))
                                =~= token_entries(acc@).add(rest));
                        },
                        Err(_) => {},
                    }
                }
                p = e;
            },
        }
    }
}

} // verus!
