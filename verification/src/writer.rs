use vstd::prelude::*;

use crate::format::Slot;
use crate::format::Tokens;
use crate::interspersed::AroundOrBetween;
use crate::interspersed::interleave;
use crate::realign::token_resolvable;
use crate::span::Span;
use crate::token::Token;
use crate::whitespace::canonical_text;

verus! {

/// The text a whitespace slot contributes: the fixed literal of its
/// canonical value, or its original run preserved byte-for-byte.
pub open spec fn slot_text(sl: Slot, s: Seq<u8>) -> Seq<u8> {
    match sl {
        Slot::Canonical(w) => canonical_text(w),
        Slot::Raw(g) => s.subrange(g.start as int, g.end as int),
    }
}

/// The text a token contributes, resolved in the two-buffer address space:
/// spans starting below the source length slice the source, the rest slice
/// the auxiliary buffer, rebased.
pub open spec fn token_text(g: Span, s: Seq<u8>, aux: Seq<u8>) -> Seq<u8> {
    if g.start < s.len() {
        s.subrange(g.start as int, g.end as int)
    } else {
        aux.subrange(g.start - s.len(), g.end - s.len())
    }
}

pub open spec fn item_text(
    item: AroundOrBetween<Slot, (Token, Span)>,
    s: Seq<u8>,
    aux: Seq<u8>,
) -> Seq<u8> {
    match item {
        AroundOrBetween::Around(sl) => slot_text(sl, s),
        AroundOrBetween::Between(e) => token_text(e.1, s, aux),
    }
}

/// Concatenated text of the first `k` items of the alternating sequence.
pub open spec fn items_text(
    items: Seq<AroundOrBetween<Slot, (Token, Span)>>,
    k: int,
    s: Seq<u8>,
    aux: Seq<u8>,
) -> Seq<u8>
    decreases k,
{
    if k <= 0 {
        Seq::empty()
    } else {
        items_text(items, k - 1, s, aux) + item_text(items[k - 1], s, aux)
    }
}

/// The full output text: the whole alternating sequence replayed once.
pub open spec fn write_out(
    slots: Seq<Slot>,
    ts: Seq<(Token, Span)>,
    s: Seq<u8>,
    aux: Seq<u8>,
) -> Seq<u8> {
    items_text(interleave(slots, ts), 2 * (ts.len() as int) + 1, s, aux)
}

/// Replay the alternating sequence once, emitting each whitespace slot's
/// text and each token's slice of the source or the auxiliary buffer.
pub fn write(tokens: &Tokens, source: &[u8], aux: &[u8]) -> (out: Vec<u8>)
    requires
        tokens.arounds().len() == tokens.betweens().len() + 1,
        forall|i: int|
            0 <= i < tokens.arounds().len() ==> ((#[trigger] tokens.arounds()[i]) is Raw ==> {
                let g = tokens.arounds()[i]->Raw_0;
                g.start <= g.end && g.end <= source@.len()
            }),
        forall|i: int|
            0 <= i < tokens.betweens().len() ==> token_resolvable(
                (#[trigger] tokens.betweens()[i]).1,
                source@,
                aux@,
            ),
    ensures
        out@ == write_out(tokens.arounds(), tokens.betweens(), source@, aux@),
{
    let items = tokens.iter_all();
    let mut out: Vec<u8> = Vec::new();
    let mut k: usize = 0;
    while k < items.len()
        invariant
            0 <= k <= items@.len(),
            items@ == interleave(tokens.arounds(), tokens.betweens()),
            items@.len() == 2 * tokens.betweens().len() + 1,
            tokens.arounds().len() == tokens.betweens().len() + 1,
            out@ == items_text(items@, k as int, source@, aux@),
            forall|i: int|
                0 <= i < tokens.arounds().len() ==> ((#[trigger] tokens.arounds()[i]) is Raw ==> {
                    let g = tokens.arounds()[i]->Raw_0;
                    g.start <= g.end && g.end <= source@.len()
                }),
            forall|i: int|
                0 <= i < tokens.betweens().len() ==> token_resolvable(
                    (#[trigger] tokens.betweens()[i]).1,
                    source@,
                    aux@,
                ),
        decreases items@.len() - k,
    {
        let item = items[k];
        proof {
            let idx = k as int;
            if idx % 2 == 0 {
                assert(items@[idx] == AroundOrBetween::<Slot, (Token, Span)>::Around(
                    tokens.arounds()[idx / 2],
                ));
            } else {
                assert(items@[idx] == AroundOrBetween::<Slot, (Token, Span)>::Between(
                    tokens.betweens()[(idx - 1) / 2],
                ));
            }
        }
        match item {
            AroundOrBetween::Around(sl) => match sl {
                Slot::Canonical(w) => {
                    let mut t = w.text();
                    out.append(&mut t);
                },
                Slot::Raw(g) => {
                    let mut t = vstd::slice::slice_to_vec(
                        vstd::slice::slice_subrange(source, g.start as usize, g.end as usize),
                    );
                    out.append(&mut t);
                },
            },
            AroundOrBetween::Between(e) => {
                let g = e.1;
                if (g.start as usize) < source.len() {
                    let mut t = vstd::slice::slice_to_vec(
                        vstd::slice::slice_subrange(source, g.start as usize, g.end as usize),
                    );
                    out.append(&mut t);
                } else {
                    let mut t = vstd::slice::slice_to_vec(
                        vstd::slice::slice_subrange(
                            aux,
                            g.start as usize - source.len(),
                            g.end as usize - source.len(),
                        ),
                    );
                    out.append(&mut t);
                }
            },
        }
        k = k + 1;
    }
    out
}

} // verus!
