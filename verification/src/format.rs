use vstd::prelude::*;

use crate::interspersed::Interspersed;
use crate::span::Span;
use crate::token::Token;
use crate::whitespace::Whitespace;
use crate::whitespace::is_spaces_spec;
use crate::whitespace::quantize;
use crate::whitespace::with_indentation;

verus! {

/// A whitespace slot of the token stream: either already assigned a
/// canonical value, or still the raw span of the original whitespace run
/// (kept raw by the pass-through rules so the author's spacing survives
/// byte-for-byte).
#[derive(Debug, Clone, Copy, PartialEq, Eq, Structural)]
pub enum Slot {
    Canonical(Whitespace),
    Raw(Span),
}

/// The formatter's token stream: tokens interleaved with whitespace slots.
pub type Tokens = Interspersed<Slot, (Token, Span)>;

/// What the rule table decides for one whitespace slot.
#[derive(Debug, Clone, Copy)]
pub enum Action {
    /// Leave the original text untouched; `intentional` separates the
    /// sanctioned directive-continuation pass-through from a gap that no
    /// rule matched.
    Unformatted { intentional: bool },
    Replace(Whitespace),
    SetIndentation(bool),
    SetIfSpaces(Whitespace),
    SetOneOrZeroSpaces,
}

/// Rule for the leading whitespace slot: indent an identifier, drop
/// everything else.
pub open spec fn initial_action(right: Token) -> Action {
    if right == Token::Identifier {
        Action::Replace(Whitespace::Tab)
    } else {
        Action::Replace(Whitespace::Empty)
    }
}

/// The ordered rule table for a slot with tokens on both sides; the first
/// matching rule wins. Bracket-adjacency and punctuation rules are
/// structural and override operator-spacing rules; operator rules come next
/// so that locally ambiguous operators are disambiguated by neighbor kind
/// before the generic indentation rules apply.
pub open spec fn pair_action(before: Token, after: Token) -> Action {
    if (before == Token::Identifier || before == Token::Directive || before
        == Token::LabelDeclaration) && after == Token::Colon {
        Action::Replace(Whitespace::Empty)
    } else if before == Token::OpenRound || before == Token::OpenSquare || after
        == Token::CloseRound || after == Token::CloseSquare {
        Action::Replace(Whitespace::Empty)
    } else if before == Token::Comma {
        Action::Replace(Whitespace::OneSpace)
    } else if after == Token::Comma {
        Action::Replace(Whitespace::Empty)
    } else if before == Token::MiscBinaryOperator || after == Token::MiscBinaryOperator {
        Action::Replace(Whitespace::OneSpace)
    } else if (before == Token::MiscUnaryOperator || before == Token::MiscBinaryOrUnaryOperator)
        && after == Token::MiscUnaryOperator {
        Action::Replace(Whitespace::Empty)
    } else if after == Token::MiscUnaryOperator {
        Action::Replace(Whitespace::OneSpace)
    } else if before == Token::MiscUnaryOperator {
        Action::Replace(Whitespace::Empty)
    } else if after == Token::MiscBinaryOrUnaryOperator {
        Action::Replace(Whitespace::OneSpace)
    } else if before == Token::MiscBinaryOrUnaryOperator {
        Action::SetOneOrZeroSpaces
    } else if after == Token::LabelDeclaration {
        Action::SetIndentation(false)
    } else if after == Token::Identifier || after == Token::String {
        Action::SetIndentation(true)
    } else if after == Token::LineComment {
        Action::SetIfSpaces(Whitespace::TwoSpaces)
    } else if before == Token::Directive || before == Token::Identifier {
        Action::SetIfSpaces(Whitespace::OneSpace)
    } else if after == Token::Directive {
        Action::Unformatted { intentional: true }
    } else if before == Token::BlockComment || after == Token::BlockComment {
        Action::SetIfSpaces(Whitespace::OneSpace)
    } else {
        Action::Unformatted { intentional: false }
    }
}

/// The rule for any slot, keyed on its neighbor tokens or their absence: no
/// tokens at all empties the file, the leading slot indents an identifier,
/// the trailing slot is always exactly one newline, and interior slots go
/// through the ordered pair table.
pub open spec fn slot_action(before: Option<Token>, after: Option<Token>) -> Action {
    match (before, after) {
        (None, None) => Action::Replace(Whitespace::Empty),
        (None, Some(t)) => initial_action(t),
        (Some(_), None) => Action::Replace(Whitespace::Newline),
        (Some(b), Some(a)) => pair_action(b, a),
    }
}

/// What applying an action does to a slot whose original whitespace run is
/// `s[gap.start .. gap.end]`.
pub open spec fn apply_action(a: Action, gap: Span, s: Seq<u8>) -> Slot {
    let text = s.subrange(gap.start as int, gap.end as int);
    match a {
        Action::Unformatted { intentional } => Slot::Raw(gap),
        Action::Replace(w) => Slot::Canonical(w),
        Action::SetIndentation(flag) => Slot::Canonical(with_indentation(quantize(text), flag)),
        Action::SetIfSpaces(w) => Slot::Canonical(
            if is_spaces_spec(quantize(text)) {
                w
            } else {
                quantize(text)
            },
        ),
        Action::SetOneOrZeroSpaces => Slot::Canonical(
            if text.len() == 0 {
                Whitespace::Empty
            } else {
                Whitespace::OneSpace
            },
        ),
    }
}

/// The value the rule engine gives slot `i`, from the retagged tokens `ts`
/// and the raw slots `gaps`.
pub open spec fn engine_slot(ts: Seq<(Token, Span)>, gaps: Seq<Slot>, s: Seq<u8>, i: int) -> Slot {
    let before = if i == 0 {
        None
    } else {
        Some(ts[i - 1].0)
    };
    let after = if i == ts.len() {
        None
    } else {
        Some(ts[i].0)
    };
    apply_action(slot_action(before, after), gaps[i]->Raw_0, s)
}

/// The retagging pass: any token immediately followed by a colon becomes a
/// label declaration; spans are untouched.
pub open spec fn retag_tokens(ts: Seq<(Token, Span)>) -> Seq<(Token, Span)> {
    Seq::new(
        ts.len(),
        |i: int|
            (
                if i + 1 < ts.len() && ts[i + 1].0 == Token::Colon {
                    Token::LabelDeclaration
                } else {
                    ts[i].0
                },
                ts[i].1,
            ),
    )
}

fn format_initial(token: Token) -> (a: Action)
    ensures
        a == initial_action(token),
{
    if token == Token::Identifier {
        Action::Replace(Whitespace::Tab)
    } else {
        Action::Replace(Whitespace::Empty)
    }
}

fn format_single(before: Token, after: Token) -> (a: Action)
    ensures
        a == pair_action(before, after),
{
    if (before == Token::Identifier || before == Token::Directive || before
        == Token::LabelDeclaration) && after == Token::Colon {
        Action::Replace(Whitespace::Empty)
    } else if before == Token::OpenRound || before == Token::OpenSquare || after
        == Token::CloseRound || after == Token::CloseSquare {
        Action::Replace(Whitespace::Empty)
    } else if before == Token::Comma {
        Action::Replace(Whitespace::OneSpace)
    } else if after == Token::Comma {
        Action::Replace(Whitespace::Empty)
    } else if before == Token::MiscBinaryOperator || after == Token::MiscBinaryOperator {
        Action::Replace(Whitespace::OneSpace)
    } else if (before == Token::MiscUnaryOperator || before == Token::MiscBinaryOrUnaryOperator)
        && after == Token::MiscUnaryOperator {
        Action::Replace(Whitespace::Empty)
    } else if after == Token::MiscUnaryOperator {
        Action::Replace(Whitespace::OneSpace)
    } else if before == Token::MiscUnaryOperator {
        Action::Replace(Whitespace::Empty)
    } else if after == Token::MiscBinaryOrUnaryOperator {
        Action::Replace(Whitespace::OneSpace)
    } else if before == Token::MiscBinaryOrUnaryOperator {
        Action::SetOneOrZeroSpaces
    } else if after == Token::LabelDeclaration {
        Action::SetIndentation(false)
    } else if after == Token::Identifier || after == Token::String {
        Action::SetIndentation(true)
    } else if after == Token::LineComment {
        Action::SetIfSpaces(Whitespace::TwoSpaces)
    } else if before == Token::Directive || before == Token::Identifier {
        Action::SetIfSpaces(Whitespace::OneSpace)
    } else if after == Token::Directive {
        Action::Unformatted { intentional: true }
    } else if before == Token::BlockComment || after == Token::BlockComment {
        Action::SetIfSpaces(Whitespace::OneSpace)
    } else {
        Action::Unformatted { intentional: false }
    }
}

impl Action {
    /// Apply this action to a slot whose original whitespace run is the
    /// given span of `source`.
    pub fn apply(self, gap: Span, source: &[u8]) -> (r: Slot)
        requires
            gap.start <= gap.end,
            gap.end <= source@.len(),
        ensures
            r == apply_action(self, gap, source@),
    {
        match self {
            Self::Unformatted { intentional: _ } => Slot::Raw(gap),
            Self::Replace(w) => Slot::Canonical(w),
            Self::SetIndentation(flag) => {
                let text = vstd::slice::slice_subrange(
                    source,
                    gap.start as usize,
                    gap.end as usize,
                );
                let mut w = Whitespace::from_text(text);
                w.set_indentation(flag);
                Slot::Canonical(w)
            },
            Self::SetIfSpaces(w) => {
                let text = vstd::slice::slice_subrange(
                    source,
                    gap.start as usize,
                    gap.end as usize,
                );
                let q = Whitespace::from_text(text);
                Slot::Canonical(
                    if q.is_spaces() {
                        w
                    } else {
                        q
                    },
                )
            },
            Self::SetOneOrZeroSpaces => Slot::Canonical(
                if gap.start == gap.end {
                    Whitespace::Empty
                } else {
                    Whitespace::OneSpace
                },
            ),
        }
    }
}

/// Retag every token immediately followed by a colon as a label declaration.
pub fn retag_labels(tokens: &mut Tokens)
    ensures
        final(tokens).betweens() == retag_tokens(old(tokens).betweens()),
        final(tokens).arounds() == old(tokens).arounds(),
{
    let n = tokens.betweens_len();
    let mut i: usize = 0;
    while i < n
        invariant
            0 <= i <= n,
            n == tokens.betweens().len(),
            n == old(tokens).betweens().len(),
            tokens.arounds() == old(tokens).arounds(),
            forall|j: int|
                0 <= j < i ==> tokens.betweens()[j] == retag_tokens(old(tokens).betweens())[j],
            forall|j: int| i <= j < n ==> tokens.betweens()[j] == old(tokens).betweens()[j],
        decreases n - i,
    {
        let mut retagged = false;
        if i + 1 < n {
            let next = tokens.between_at(i + 1);
            if next.0 == Token::Colon {
                let current = tokens.between_at(i);
                tokens.set_between(i, (Token::LabelDeclaration, current.1));
                retagged = true;
                proof {
                    let idx = i as int;
                    assert(tokens.betweens()[idx] == (
                        Token::LabelDeclaration,
                        old(tokens).betweens()[idx].1,
                    ));
                }
            }
        }
        proof {
            let idx = i as int;
            if !retagged {
                assert(retag_tokens(old(tokens).betweens())[idx] == old(tokens).betweens()[idx]);
            }
        }
        i = i + 1;
    }
    proof {
        assert(tokens.betweens() =~= retag_tokens(old(tokens).betweens()));
    }
}

/// The rule engine: visit every whitespace slot and assign it the value the
/// ordered rule table decides from its neighboring token kinds.
pub fn format(tokens: &mut Tokens, source: &[u8])
    requires
        forall|i: int|
            0 <= i < old(tokens).arounds().len() ==> {
                let sl = #[trigger] old(tokens).arounds()[i];
                sl is Raw && sl->Raw_0.start <= sl->Raw_0.end && sl->Raw_0.end <= source@.len()
            },
    ensures
        final(tokens).betweens() == old(tokens).betweens(),
        final(tokens).arounds().len() == old(tokens).arounds().len(),
        forall|i: int|
            0 <= i < final(tokens).arounds().len() ==> final(tokens).arounds()[i] == engine_slot(
                old(tokens).betweens(),
                old(tokens).arounds(),
                source@,
                i,
            ),
{
    let items = tokens.arounds_mut();
    let n = tokens.betweens_len();
    let m = items.len();
    let mut i: usize = 0;
    while i < m
        invariant
            0 <= i <= n + 1,
            m == n + 1,
            n == tokens.betweens().len(),
            n == old(tokens).betweens().len(),
            tokens.betweens() == old(tokens).betweens(),
            tokens.arounds().len() == n + 1,
            old(tokens).arounds().len() == n + 1,
            items@.len() == n + 1,
            forall|j: int|
                0 <= j < items@.len() ==> items@[j] == crate::interspersed::arounds_item_at(
                    old(tokens).arounds(),
                    old(tokens).betweens(),
                    j,
                ),
            forall|j: int|
                0 <= j < old(tokens).arounds().len() ==> {
                    let sl = #[trigger] old(tokens).arounds()[j];
                    sl is Raw && sl->Raw_0.start <= sl->Raw_0.end && sl->Raw_0.end <= source@.len()
                },
            forall|j: int|
                0 <= j < i ==> tokens.arounds()[j] == engine_slot(
                    old(tokens).betweens(),
                    old(tokens).arounds(),
                    source@,
                    j,
                ),
            forall|j: int| i <= j < n + 1 ==> tokens.arounds()[j] == old(tokens).arounds()[j],
        decreases n + 1 - i,
    {
        let (before, slot, after) = items[i].into_tuple();
        proof {
            assert(items@[i as int] == crate::interspersed::arounds_item_at(
                old(tokens).arounds(),
                old(tokens).betweens(),
                i as int,
            ));
            assert(slot == old(tokens).arounds()[i as int]);
        }
        let action = match (before, after) {
            (None, None) => Action::Replace(Whitespace::Empty),
            (None, Some(t)) => format_initial(t.0),
            (Some(_), None) => Action::Replace(Whitespace::Newline),
            (Some(b), Some(a)) => format_single(b.0, a.0),
        };
        let gap = match slot {
            Slot::Raw(g) => g,
            Slot::Canonical(_) => {
                proof {
                    assert(false);
                }
                Span { start: 0, end: 0 }
            },
        };
        proof {
            let idx = i as int;
            let bw = old(tokens).betweens();
            let before_kind: Option<Token> = if idx == 0 {
                None
            } else {
                Some(bw[idx - 1].0)
            };
            let after_kind: Option<Token> = if idx == bw.len() {
                None
            } else {
                Some(bw[idx].0)
            };
            assert(action == slot_action(before_kind, after_kind));
            assert(gap == old(tokens).arounds()[idx]->Raw_0);
        }
        let new_slot = action.apply(gap, source);
        tokens.set_around(i, new_slot);
        i = i + 1;
    }
}

} // verus!
