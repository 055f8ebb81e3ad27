use vstd::prelude::*;

use crate::entry_tokens;
use crate::format::Action;
use crate::format::Slot;
use crate::format::apply_action;
use crate::format::engine_slot;
use crate::format::retag_tokens;
use crate::format::slot_action;
use crate::initial_slots;
use crate::lexer::lemma_lex_spans;
use crate::lexer::lex;
use crate::realign::lemma_realign_upto_frame;
use crate::realign::realign_step;
use crate::realign::realign_upto;
use crate::span::Span;
use crate::token::Token;
use crate::whitespace::Whitespace;
use crate::whitespace::canonical_text;
use crate::whitespace::is_spaces_spec;
use crate::whitespace::lemma_quantize_canonical_text;
use crate::whitespace::lemma_with_indentation_idempotent;
use crate::whitespace::quantize;
use crate::whitespace::with_indentation;
use crate::writer::slot_text;
use crate::writer::token_text;

verus! {

/// Law (whitespace idempotence, slot by slot): whatever text the rule for a
/// pair of neighbor tokens emits for a slot, applying the same rule to that
/// emitted text emits it back unchanged. Together with the canonical-text
/// closure law this is the reason re-formatting formatted output does not
/// change any whitespace slot.
pub proof fn lemma_slot_idempotent(
    before: Option<Token>,
    after: Option<Token>,
    s: Seq<u8>,
    gap: Span,
)
    requires
        gap.start <= gap.end,
        gap.end <= s.len(),
        s.len() < 0xFFFF_FFFF,
    ensures
        ({
            let action = slot_action(before, after);
            let emitted = slot_text(apply_action(action, gap, s), s);
            slot_text(
                apply_action(action, Span { start: 0, end: emitted.len() as u32 }, emitted),
                emitted,
            ) == emitted
        }),
{
    let action = slot_action(before, after);
    let emitted = slot_text(apply_action(action, gap, s), s);
    let gap2 = Span { start: 0, end: emitted.len() as u32 };
    let text = s.subrange(gap.start as int, gap.end as int);
    assert(emitted.len() <= s.len() || emitted.len() <= 3);
    assert(emitted.subrange(gap2.start as int, gap2.end as int) =~= emitted);
    match action {
        Action::Unformatted { intentional: _ } => {},
        Action::Replace(_) => {},
        Action::SetIndentation(flag) => {
            lemma_quantize_canonical_text(with_indentation(quantize(text), flag));
            lemma_with_indentation_idempotent(quantize(text), flag);
        },
        Action::SetIfSpaces(w) => {
            let q = quantize(text);
            let w1 = if is_spaces_spec(q) {
                w
            } else {
                q
            };
            lemma_quantize_canonical_text(w1);
        },
        Action::SetOneOrZeroSpaces => {
            if text.len() == 0 {
                lemma_quantize_canonical_text(Whitespace::Empty);
            } else {
                lemma_quantize_canonical_text(Whitespace::OneSpace);
            }
        },
    }
}

/// Law (error locality): a failed scan reports exactly the first
/// unrecognizable input: the text before the reported offset lexes cleanly
/// on its own, the byte at the offset is not whitespace, and no token
/// pattern matches there. Together with `format`'s own contract — it fails
/// with that offset if and only if the scan fails — this pins the error
/// span down completely.
pub proof fn lemma_error_locality(s: Seq<u8>)
    requires
        lex(s) is Err,
    ensures
        ({
            let k = lex(s)->Err_0;
            &&& 0 <= k < s.len()
            &&& !crate::lexer::in_class(crate::lexer::ByteClass::Space, s[k])
            &&& crate::lexer::next_token(s, k) is None
            &&& lex(s.subrange(0, k)) is Ok
        }),
{
    crate::lexer::lemma_lex_from_err(s, 0);
    crate::lexer::lemma_lex_prefix_ok(s, 0);
}

/// Law (canonical whitespace closure): every whitespace slot the rule engine
/// assigns is one of the eight canonical values, whose emitted text
/// re-quantizes to that same value, except the slots the table deliberately
/// leaves as original text: the pass-through outcomes are exactly the
/// `Unformatted` rules.
pub proof fn lemma_engine_slot_canonical(
    ts: Seq<(Token, Span)>,
    gaps: Seq<Slot>,
    s: Seq<u8>,
    i: int,
)
    ensures
        ({
            let before: Option<Token> = if i == 0 {
                None
            } else {
                Some(ts[i - 1].0)
            };
            let after: Option<Token> = if i == ts.len() {
                None
            } else {
                Some(ts[i].0)
            };
            let sl = engine_slot(ts, gaps, s, i);
            &&& (sl is Raw ==> slot_action(before, after) is Unformatted)
            &&& (sl is Canonical ==> quantize(canonical_text(sl->Canonical_0))
                == sl->Canonical_0)
        }),
{
    let sl = engine_slot(ts, gaps, s, i);
    if sl is Canonical {
        lemma_quantize_canonical_text(sl->Canonical_0);
    }
}

/// Realignment keeps every token's kind, and leaves every token that is not
/// a block comment entirely untouched.
pub proof fn lemma_realign_upto_preserves(
    ts: Seq<(Token, Span)>,
    slots: Seq<Slot>,
    s: Seq<u8>,
    i: int,
)
    requires
        i <= ts.len(),
    ensures
        realign_upto(ts, slots, s, i).0.len() == ts.len(),
        forall|j: int|
            0 <= j < ts.len() ==> (#[trigger] realign_upto(ts, slots, s, i).0[j]).0 == ts[j].0,
        forall|j: int|
            0 <= j < ts.len() && ts[j].0 != Token::BlockComment ==> realign_upto(
                ts,
                slots,
                s,
                i,
            ).0[j] == ts[j],
    decreases i,
{
    lemma_realign_upto_frame(ts, slots, s, i);
    if i > 0 {
        lemma_realign_upto_frame(ts, slots, s, i - 1);
        lemma_realign_upto_preserves(ts, slots, s, i - 1);
        let prev = realign_upto(ts, slots, s, i - 1);
        let stepped = realign_step(ts[i - 1], slots[i - 1], s, prev.1, i - 1 == 0);
        assert(stepped.0.0 == ts[i - 1].0);
        assert(ts[i - 1].0 != Token::BlockComment ==> stepped.0 == ts[i - 1]);
    }
}

/// Where the output stands after the first `k` items of the unmodified
/// alternating sequence: gap `i` reaches from the end of token `i - 1` (or
/// the file start) to the start of token `i` (or the file end).
spec fn replay_boundary(entries: Seq<(Token, int, int)>, s: Seq<u8>, k: int) -> int {
    if k <= 0 {
        0
    } else if k % 2 == 1 {
        let i = (k - 1) / 2;
        if i == entries.len() {
            s.len() as int
        } else {
            entries[i].1
        }
    } else {
        entries[k / 2 - 1].2
    }
}

proof fn lemma_replay_prefix(s: Seq<u8>, k: int)
    requires
        lex(s) is Ok,
        s.len() < 0xFFFF_FFFF,
        0 <= k <= 2 * lex(s)->Ok_0.len() + 1,
    ensures
        ({
            let entries = lex(s)->Ok_0;
            crate::writer::items_text(
                crate::interspersed::interleave(
                    initial_slots(entries, s),
                    entry_tokens(entries),
                ),
                k,
                s,
                Seq::empty(),
            ) == s.subrange(0, replay_boundary(entries, s, k))
        }),
    decreases k,
{
    lemma_lex_spans(s);
    let entries = lex(s)->Ok_0;
    let slots0 = initial_slots(entries, s);
    let ts0 = entry_tokens(entries);
    let items = crate::interspersed::interleave(slots0, ts0);
    if k <= 0 {
        assert(s.subrange(0, 0) =~= Seq::<u8>::empty());
    } else {
        lemma_replay_prefix(s, k - 1);
        let a = replay_boundary(entries, s, k - 1);
        let b = replay_boundary(entries, s, k);
        if (k - 1) % 2 == 0 {
            // Item `k - 1` is gap `(k - 1) / 2`.
            let i = (k - 1) / 2;
            assert(items[k - 1] == crate::interspersed::AroundOrBetween::<Slot, (Token, Span)>::Around(
                slots0[i],
            ));
            assert(crate::writer::item_text(items[k - 1], s, Seq::empty()) == s.subrange(a, b));
        } else {
            // Item `k - 1` is token `(k - 1 - 1) / 2 == k / 2 - 1`.
            let i = k / 2 - 1;
            assert(items[k - 1] == crate::interspersed::AroundOrBetween::<Slot, (Token, Span)>::Between(
                ts0[i],
            ));
            assert(0 <= entries[i].1 < entries[i].2 <= s.len());
            assert(crate::writer::item_text(items[k - 1], s, Seq::empty()) == s.subrange(a, b));
        }
        assert(s.subrange(0, a) + s.subrange(a, b) =~= s.subrange(0, b));
    }
}

/// Law (tokenization round trip): replaying the freshly tokenized stream —
/// every whitespace slot still its raw gap, every token its original span —
/// reproduces the input byte-for-byte. The tokens and the gaps between them
/// partition the input, and only the passes that run afterwards change
/// anything.
pub proof fn lemma_replay_identity(s: Seq<u8>)
    requires
        lex(s) is Ok,
        s.len() < 0xFFFF_FFFF,
    ensures
        ({
            let entries = lex(s)->Ok_0;
            crate::writer::write_out(
                initial_slots(entries, s),
                entry_tokens(entries),
                s,
                Seq::empty(),
            ) == s
        }),
{
    let entries = lex(s)->Ok_0;
    lemma_replay_prefix(s, 2 * (entries.len() as int) + 1);
    assert(s.subrange(0, s.len() as int) =~= s);
}

/// Law (token preservation): for a lexable input, formatting keeps the
/// ordered token sequence: there are exactly as many tokens as the tokenizer
/// found, each output token's kind is the input token's kind (with only the
/// retagging of a token in front of a colon to a label declaration), and
/// every token that is not a retagged-away block comment resolves to its
/// original text byte-for-byte. The one sanctioned content change is the
/// block-comment rewrite.
pub proof fn lemma_token_preservation(s: Seq<u8>)
    requires
        lex(s) is Ok,
        s.len() < 0xFFFF_FFFF,
    ensures
        ({
            let entries = lex(s)->Ok_0;
            let ts1 = retag_tokens(entry_tokens(entries));
            let slots0 = initial_slots(entries, s);
            let slots1 = Seq::new(slots0.len(), |i: int| engine_slot(ts1, slots0, s, i));
            let ra = realign_upto(ts1, slots1, s, ts1.len() as int);
            &&& ra.0.len() == entries.len()
            &&& forall|i: int| 0 <= i < entries.len() ==> (#[trigger] ra.0[i]).0 == ts1[i].0
            &&& forall|i: int|
                0 <= i < entries.len() ==> (#[trigger] ts1[i]).0 == (
                    if i + 1 < entries.len() && entries[i + 1].0 == Token::Colon {
                        Token::LabelDeclaration
                    } else {
                        entries[i].0
                    }
                )
            &&& forall|i: int|
                0 <= i < entries.len() && (#[trigger] ts1[i]).0 != Token::BlockComment
                    ==> token_text(ra.0[i].1, s, ra.1) == s.subrange(entries[i].1, entries[i].2)
        }),
{
    let entries = lex(s)->Ok_0;
    let ts1 = retag_tokens(entry_tokens(entries));
    let slots0 = initial_slots(entries, s);
    let slots1 = Seq::new(slots0.len(), |i: int| engine_slot(ts1, slots0, s, i));
    let ra = realign_upto(ts1, slots1, s, ts1.len() as int);
    lemma_lex_spans(s);
    lemma_realign_upto_preserves(ts1, slots1, s, ts1.len() as int);
    assert forall|i: int|
        0 <= i < entries.len() && (#[trigger] ts1[i]).0 != Token::BlockComment implies token_text(
        ra.0[i].1,
        s,
        ra.1,
    ) == s.subrange(entries[i].1, entries[i].2) by {
        assert(ra.0[i] == ts1[i]);
        assert(ts1[i].1 == entry_tokens(entries)[i].1);
        assert(entry_tokens(entries)[i].1 == Span {
            start: entries[i].1 as u32,
            end: entries[i].2 as u32,
        });
        assert(0 <= entries[i].1 < entries[i].2 <= s.len());
    }
}

} // verus!
