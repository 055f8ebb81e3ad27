//! A deterministic source-to-source formatter for an assembly-language
//! dialect: given raw assembly text, it produces byte-stable, canonically
//! whitespace-normalized text with identical token content and order.
//!
//! The pipeline: a maximal-munch tokenizer ([`lexer`]) scans the bytes into
//! tokens with spans; the token stream is held as tokens interleaved with
//! whitespace slots ([`interspersed`]); a lookahead pass retags tokens in
//! front of a colon as label declarations; an ordered rule table assigns
//! every slot one of eight canonical whitespace values or deliberately
//! leaves it as the author wrote it ([`format`], [`whitespace`]); block
//! comments whose interior lines disagree with their surrounding indentation
//! are rewritten into an auxiliary buffer ([`realign`]); and the alternating
//! sequence is replayed into the output ([`writer`]). The whole pipeline is
//! also stated as one mathematical function, [`format_spec`], which the
//! executable [`format`](format()) provably computes; [`laws`] holds the
//! properties proved about it.

pub mod format;
pub mod interspersed;
pub mod laws;
pub mod lexer;
pub mod realign;
pub mod span;
pub mod token;
pub mod whitespace;
pub mod writer;

pub use crate::format::Slot;
pub use crate::format::Tokens;
pub use crate::interspersed::AroundOrBetween;
pub use crate::interspersed::AroundsItem;
pub use crate::interspersed::Interspersed;
pub use crate::span::LineAndColumn;
pub use crate::span::Span;
pub use crate::token::Token;
pub use crate::whitespace::Whitespace;

use vstd::prelude::*;

use crate::format::engine_slot;
use crate::format::retag_labels;
use crate::format::retag_tokens;
use crate::lexer::lemma_lex_spans;
use crate::lexer::lex;
use crate::lexer::token_entries;
use crate::lexer::tokenize;
use crate::realign::lemma_realign_upto_frame;
use crate::realign::lemma_realign_upto_valid;
use crate::realign::realign_comments;
use crate::realign::realign_upto;
use crate::writer::write_out;

verus! {

/// The formatter's one error: the input could not be lexed. The span points
/// at the first unrecognized input.
#[derive(Debug, Clone, Copy)]
pub struct Error {
    pub span: Span,
}

/// The initial whitespace slots of a lexed input: the raw gap before each
/// token, plus the trailing gap after the last one.
pub open spec fn initial_slots(entries: Seq<(Token, int, int)>, s: Seq<u8>) -> Seq<Slot> {
    Seq::new(
        entries.len() + 1,
        |i: int|
            Slot::Raw(
                Span {
                    start: (if i == 0 {
                        0int
                    } else {
                        entries[i - 1].2
                    }) as u32,
                    end: (if i == entries.len() {
                        s.len() as int
                    } else {
                        entries[i].1
                    }) as u32,
                },
            ),
    )
}

/// The lexed entries as executable token/span pairs.
pub open spec fn entry_tokens(entries: Seq<(Token, int, int)>) -> Seq<(Token, Span)> {
    entries.map_values(
        |e: (Token, int, int)| (e.0, Span { start: e.1 as u32, end: e.2 as u32 }),
    )
}

/// The whole formatting pipeline as one mathematical function: tokenize,
/// retag label declarations, give every whitespace slot the value the rule
/// table decides, realign block comments into the auxiliary buffer, and
/// replay the alternating sequence; or the offset of the first unlexable
/// input.
pub open spec fn format_spec(s: Seq<u8>) -> Result<Seq<u8>, int> {
    match lex(s) {
        Err(k) => Err(k),
        Ok(entries) => {
            let ts1 = retag_tokens(entry_tokens(entries));
            let slots0 = initial_slots(entries, s);
            let slots1 = Seq::new(slots0.len(), |i: int| engine_slot(ts1, slots0, s, i));
            let ra = realign_upto(ts1, slots1, s, ts1.len() as int);
            Ok(write_out(slots1, ra.0, s, ra.1))
        },
    }
}

/// Format the given assembly text: on success the byte-stable, canonically
/// whitespace-normalized text, otherwise the span of the first unrecognized
/// input. Inputs at or above the largest representable span offset are
/// outside the domain.
pub fn format(source: &[u8]) -> (r: Result<Vec<u8>, Error>)
    requires
        source@.len() < 0xFFFF_FFFF,
    ensures
        r matches Ok(out) ==> format_spec(source@) == Ok::<Seq<u8>, int>(out@),
        r matches Err(e) ==> format_spec(source@) == Err::<Seq<u8>, int>(e.span.start as int)
            && e.span.end == e.span.start + 1,
        (r is Ok) <==> (lex(source@) is Ok),
{
    let toks = match tokenize(source) {
        Err(sp) => {
            return Err(Error { span: sp });
        },
        Ok(v) => v,
    };
    let ghost entries = lex(source@)->Ok_0;
    let n = toks.len();
    proof {
        lemma_lex_spans(source@);
        assert(entries == token_entries(toks@));
        assert forall|j: int| 0 <= j < n implies {
            let g = (#[trigger] toks@[j]).1;
            g.start < g.end && g.end <= source@.len()
        } by {
            assert(entries[j] == (toks@[j].0, toks@[j].1.start as int, toks@[j].1.end as int));
        }
        assert forall|j: int| 0 <= j && j + 1 < n implies (#[trigger] toks@[j]).1.end <= toks@[j
            + 1].1.start by {
            assert(entries[j] == (toks@[j].0, toks@[j].1.start as int, toks@[j].1.end as int));
            assert(entries[j + 1] == (
                toks@[j + 1].0,
                toks@[j + 1].1.start as int,
                toks@[j + 1].1.end as int,
            ));
        }
    }
    let mut rest: Vec<(Slot, (Token, Span))> = Vec::new();
    let mut prev_end: u32 = 0;
    let mut i: usize = 0;
    while i < n
        invariant
            0 <= i <= n,
            n == toks@.len(),
            source@.len() < 0xFFFF_FFFF,
            entries == token_entries(toks@),
            forall|j: int|
                0 <= j < n ==> {
                    let g = (#[trigger] toks@[j]).1;
                    g.start < g.end && g.end <= source@.len()
                },
            forall|j: int| 0 <= j && j + 1 < n ==> (#[trigger] toks@[j]).1.end <= toks@[j
                + 1].1.start,
            rest@.len() == i,
            forall|j: int| 0 <= j < i ==> (#[trigger] rest@[j]).1 == toks@[j],
            forall|j: int|
                0 <= j < i ==> (#[trigger] rest@[j]).0 == initial_slots(entries, source@)[j],
            prev_end == if i == 0 {
                0u32
            } else {
                toks@[i - 1].1.end
            },
        decreases n - i,
    {
        let (t, sp) = toks[i];
        proof {
            let idx = i as int;
            let te = toks@[idx];
            assert(entries[idx] == (te.0, te.1.start as int, te.1.end as int));
            if idx > 0 {
                assert(entries[idx - 1] == (
                    toks@[idx - 1].0,
                    toks@[idx - 1].1.start as int,
                    toks@[idx - 1].1.end as int,
                ));
            }
        }
        rest.push((Slot::Raw(Span { start: prev_end, end: sp.start }), (t, sp)));
        prev_end = sp.end;
        i = i + 1;
    }
    let last_slot = Slot::Raw(Span { start: prev_end, end: source.len() as u32 });
    let mut tokens: Tokens = Interspersed::from_rest_and_last(rest, last_slot);
    let ghost ts1 = retag_tokens(entry_tokens(entries));
    let ghost slots0 = initial_slots(entries, source@);
    let ghost slots1 = Seq::new(slots0.len(), |i: int| engine_slot(ts1, slots0, source@, i));
    proof {
        if n > 0 {
            assert(entries[n - 1] == (
                toks@[n - 1].0,
                toks@[n - 1].1.start as int,
                toks@[n - 1].1.end as int,
            ));
        }
        assert(tokens.betweens() =~= entry_tokens(entries));
        assert(tokens.arounds() =~= slots0);
        assert forall|j: int| 0 <= j < slots0.len() implies {
            let sl = #[trigger] slots0[j];
            sl is Raw && sl->Raw_0.start <= sl->Raw_0.end && sl->Raw_0.end <= source@.len()
        } by {
            if 0 < j < slots0.len() - 1 {
                assert(toks@[j - 1].1.end <= toks@[j].1.start);
            }
        }
    }
    retag_labels(&mut tokens);
    format::format(&mut tokens, source);
    proof {
        assert(tokens.arounds() =~= slots1);
        assert forall|j: int| 0 <= j < slots1.len() implies ((#[trigger] tokens.arounds()[j])
            is Raw ==> {
            let g = tokens.arounds()[j]->Raw_0;
            g.start <= g.end && g.end <= source@.len()
        }) by {
            assert(slots1[j] == engine_slot(ts1, slots0, source@, j));
        }
        assert forall|j: int| 0 <= j < ts1.len() implies {
            let g = (#[trigger] tokens.betweens()[j]).1;
            g.start < g.end && g.end <= source@.len()
        } by {
            assert(tokens.betweens()[j] == ts1[j]);
            assert(ts1[j].1 == entry_tokens(entries)[j].1);
            assert(entries[j] == (toks@[j].0, toks@[j].1.start as int, toks@[j].1.end as int));
        }
    }
    let aux = realign_comments(&mut tokens, source);
    proof {
        lemma_realign_upto_frame(ts1, slots1, source@, n as int);
        lemma_realign_upto_valid(ts1, slots1, source@, n as int);
    }
    let out = crate::writer::write(&tokens, source, aux.as_slice());
    proof {
        assert(out@ == write_out(slots1, realign_upto(ts1, slots1, source@, n as int).0, source@,
        realign_upto(ts1, slots1, source@, n as int).1));
    }
    Ok(out)
}

} // verus!
