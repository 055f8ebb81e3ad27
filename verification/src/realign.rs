use vstd::prelude::*;

use crate::format::Slot;
use crate::format::Tokens;
use crate::lexer::ByteClass;
use crate::lexer::in_class;
use crate::lexer::lemma_run_end;
use crate::lexer::run_end;
use crate::lexer::scan_run;
use crate::span::Span;
use crate::token::Token;
use crate::whitespace::Whitespace;
use crate::whitespace::indentation_spec;
use crate::whitespace::quantize;

verus! {

/// End of the line that starts at or covers position `p` of `t`.
pub open spec fn line_end(t: Seq<u8>, p: int) -> int {
    run_end(t, p, ByteClass::NonNewline)
}

/// End of the run of leading tabs at position `p` of `t`.
pub open spec fn tab_end(t: Seq<u8>, p: int) -> int {
    run_end(t, p, ByteClass::Tab)
}

pub proof fn lemma_tab_end_le_line_end(t: Seq<u8>, p: int)
    requires
        0 <= p <= t.len(),
    ensures
        p <= tab_end(t, p) <= line_end(t, p) <= t.len(),
    decreases t.len() - p,
{
    lemma_run_end(t, p, ByteClass::NonNewline);
    if p < t.len() && t[p] == 9u8 {
        lemma_tab_end_le_line_end(t, p + 1);
    }
}

/// Every line of `t` that starts at or after position `p` is empty or
/// carries exactly `target` leading tabs.
pub open spec fn lines_aligned_from(t: Seq<u8>, p: int, target: int) -> bool
    decreases t.len() - p,
    when 0 <= p <= t.len()
    via lines_aligned_from_decreases
{
    let e = line_end(t, p);
    let ok = (e == p) || (tab_end(t, p) - p == target);
    if e >= t.len() {
        ok
    } else {
        ok && lines_aligned_from(t, e + 1, target)
    }
}

#[via_fn]
proof fn lines_aligned_from_decreases(t: Seq<u8>, p: int, target: int) {
    lemma_run_end(t, p, ByteClass::NonNewline);
}

/// A block comment is already aligned when every line after its first is
/// empty or indented with exactly `target` tabs.
pub open spec fn aligned(t: Seq<u8>, target: int) -> bool {
    let e = line_end(t, 0);
    if e >= t.len() {
        true
    } else {
        lines_aligned_from(t, e + 1, target)
    }
}

pub open spec fn tabs(k: int) -> Seq<u8> {
    Seq::new(k as nat, |j: int| 9u8)
}

/// Rewritten text of the lines of `t` from position `p` on: each is stripped
/// of its leading tabs and re-indented with `target` tabs, and the lines are
/// rejoined with newlines (no trailing newline).
pub open spec fn rewrite_tail(t: Seq<u8>, p: int, target: int) -> Seq<u8>
    decreases t.len() - p,
    when 0 <= p <= t.len()
    via rewrite_tail_decreases
{
    let e = line_end(t, p);
    let piece = tabs(target) + t.subrange(tab_end(t, p), e);
    if e >= t.len() {
        piece
    } else {
        piece + seq![10u8] + rewrite_tail(t, e + 1, target)
    }
}

#[via_fn]
proof fn rewrite_tail_decreases(t: Seq<u8>, p: int, target: int) {
    lemma_run_end(t, p, ByteClass::NonNewline);
}

/// The full rewritten comment: first line unchanged, every later line
/// re-indented to `target` tabs.
pub open spec fn rewrite(t: Seq<u8>, target: int) -> Seq<u8> {
    let e = line_end(t, 0);
    if e >= t.len() {
        t
    } else {
        t.subrange(0, e) + seq![10u8] + rewrite_tail(t, e + 1, target)
    }
}

/// `run_end` pinned down from the outside: if every byte of `[p, e)` is in
/// the class and the byte at `e` (if any) is not, the run ends at `e`.
proof fn lemma_run_end_value(s: Seq<u8>, p: int, e: int, c: ByteClass)
    requires
        0 <= p <= e <= s.len(),
        forall|q: int| p <= q < e ==> in_class(c, s[q]),
        e < s.len() ==> !in_class(c, s[e]),
    ensures
        run_end(s, p, c) == e,
    decreases e - p,
{
    if p < e {
        lemma_run_end_value(s, p + 1, e, c);
    }
}

/// If the tail of `out` from position `base` on is exactly the rewritten
/// lines of `t` from `p` on, then every line of `out` from `base` on carries
/// exactly `target` leading tabs.
proof fn lemma_rewrite_tail_aligned(t: Seq<u8>, p: int, target: int, out: Seq<u8>, base: int)
    requires
        0 <= p <= t.len(),
        0 <= target,
        0 <= base <= out.len(),
        out.subrange(base, out.len() as int) == rewrite_tail(t, p, target),
    ensures
        lines_aligned_from(out, base, target),
    decreases t.len() - p,
{
    lemma_run_end(t, p, ByteClass::NonNewline);
    lemma_run_end(t, p, ByteClass::Tab);
    lemma_tab_end_le_line_end(t, p);
    let e = line_end(t, p);
    let strip = tab_end(t, p);
    let body = t.subrange(strip, e);
    let piece = tabs(target) + body;
    let tail = rewrite_tail(t, p, target);
    assert(out.len() - base == tail.len());
    assert forall|j: int| 0 <= j < tail.len() implies out[base + j] == tail[j] by {
        assert(out.subrange(base, out.len() as int)[j] == out[base + j]);
    }
    if e >= t.len() {
        assert(tail == piece);
    } else {
        assert(tail =~= piece + seq![10u8] + rewrite_tail(t, e + 1, target));
    }
    assert forall|j: int| 0 <= j < piece.len() implies tail[j] == piece[j] by {
        if e < t.len() {
            assert(tail[j] == (piece + seq![10u8] + rewrite_tail(t, e + 1, target))[j]);
        }
    }
    // The emitted line: `target` tabs, then a body that holds no newline and
    // does not start with a tab.
    assert forall|j: int| 0 <= j < piece.len() implies in_class(
        ByteClass::NonNewline,
        piece[j],
    ) by {
        if j < target {
            assert(piece[j] == 9u8);
        } else {
            assert(piece[j] == body[j - target]);
            assert(body[j - target] == t[strip + (j - target)]);
        }
    }
    assert forall|q: int| base <= q < base + piece.len() implies in_class(
        ByteClass::NonNewline,
        out[q],
    ) by {
        assert(out[q] == tail[q - base]);
        assert(tail[q - base] == piece[q - base]);
    }
    assert forall|q: int| base <= q < base + target implies in_class(ByteClass::Tab, out[q]) by {
        assert(out[q] == tail[q - base]);
        assert(tail[q - base] == piece[q - base]);
        assert(piece[q - base] == 9u8);
    }
    assert(base + target <= out.len());
    if base + target < out.len() {
        if target < piece.len() {
            assert(piece[target] == body[0]);
            assert(body[0] == t[strip]);
            assert(!in_class(ByteClass::Tab, t[strip]));
            assert(out[base + target] == piece[target]);
        } else {
            assert(e < t.len());
            assert(out[base + target] == tail[target]);
            assert(tail[target] == 10u8);
        }
    }
    lemma_run_end_value(out, base, base + target, ByteClass::Tab);
    assert(tab_end(out, base) == base + target);
    if e >= t.len() {
        lemma_run_end_value(out, base, out.len() as int, ByteClass::NonNewline);
        assert(line_end(out, base) == out.len());
    } else {
        let le = base + piece.len();
        assert(tail[piece.len() as int] == 10u8);
        assert(out[le] == 10u8);
        lemma_run_end_value(out, base, le, ByteClass::NonNewline);
        assert(line_end(out, base) == le);
        let rest = rewrite_tail(t, e + 1, target);
        assert(out.len() - (le + 1) == rest.len());
        assert forall|j: int| 0 <= j < rest.len() implies out.subrange(le + 1, out.len() as int)[j]
            == rest[j] by {
            assert(out.subrange(le + 1, out.len() as int)[j] == out[le + 1 + j]);
            assert(out[le + 1 + j] == tail[piece.len() + 1 + j]);
            assert(tail[piece.len() + 1 + j] == (piece + seq![10u8] + rest)[piece.len() + 1 + j]);
        }
        assert(out.subrange(le + 1, out.len() as int) =~= rest);
        lemma_rewrite_tail_aligned(t, e + 1, target, out, le + 1);
    }
}

/// Law (block-comment realignment closure): the rewritten text of any
/// comment is uniformly aligned at the chosen indentation, so realigning it
/// a second time leaves it byte-identical.
pub proof fn lemma_rewrite_aligned(t: Seq<u8>, target: int)
    requires
        0 <= target,
    ensures
        aligned(rewrite(t, target), target),
{
    lemma_run_end(t, 0, ByteClass::NonNewline);
    let e0 = line_end(t, 0);
    let out = rewrite(t, target);
    if e0 >= t.len() {
        assert(out == t);
    } else {
        assert(out == t.subrange(0, e0) + seq![10u8] + rewrite_tail(t, e0 + 1, target));
        assert(forall|j: int|
            0 <= j < e0 ==> out[j] == t[j] && in_class(ByteClass::NonNewline, out[j]));
        assert(out[e0] == 10u8);
        lemma_run_end_value(out, 0, e0, ByteClass::NonNewline);
        assert(line_end(out, 0) == e0);
        assert(out.subrange(e0 + 1, out.len() as int) =~= rewrite_tail(t, e0 + 1, target));
        lemma_rewrite_tail_aligned(t, e0 + 1, target, out, e0 + 1);
    }
}

/// The canonical whitespace value a slot stands for: its assigned value, or
/// the quantization of its raw text.
pub open spec fn slot_quantized(sl: Slot, s: Seq<u8>) -> Whitespace {
    match sl {
        Slot::Canonical(w) => w,
        Slot::Raw(g) => quantize(s.subrange(g.start as int, g.end as int)),
    }
}

/// Realignment of one token. A block comment whose preceding whitespace
/// encodes an indentation level (or which is the first content of the file,
/// at level zero) and whose interior lines do not already carry exactly that
/// indentation is rewritten into the auxiliary buffer, its span rebased past
/// the end of the source; everything else is untouched. A rewrite that would
/// push the two-buffer address space past the largest representable offset
/// is skipped.
pub open spec fn realign_step(
    entry: (Token, Span),
    slot: Slot,
    s: Seq<u8>,
    aux: Seq<u8>,
    first: bool,
) -> ((Token, Span), Seq<u8>) {
    if entry.0 != Token::BlockComment {
        (entry, aux)
    } else {
        let target = match indentation_spec(slot_quantized(slot, s)) {
            Some(k) => Some(k as int),
            None => if first {
                Some(0int)
            } else {
                None
            },
        };
        match target {
            None => (entry, aux),
            Some(k) => {
                let text = s.subrange(entry.1.start as int, entry.1.end as int);
                if aligned(text, k) {
                    (entry, aux)
                } else {
                    let rw = rewrite(text, k);
                    if s.len() + aux.len() + rw.len() < 0xFFFF_FFFF {
                        (
                            (
                                Token::BlockComment,
                                Span {
                                    start: (s.len() + aux.len()) as u32,
                                    end: (s.len() + aux.len() + rw.len()) as u32,
                                },
                            ),
                            aux + rw,
                        )
                    } else {
                        (entry, aux)
                    }
                }
            },
        }
    }
}

/// Realignment applied to the first `i` tokens, threading the auxiliary
/// buffer through the steps.
pub open spec fn realign_upto(
    ts: Seq<(Token, Span)>,
    slots: Seq<Slot>,
    s: Seq<u8>,
    i: int,
) -> (Seq<(Token, Span)>, Seq<u8>)
    decreases i,
{
    if i <= 0 {
        (ts, Seq::empty())
    } else {
        let prev = realign_upto(ts, slots, s, i - 1);
        let stepped = realign_step(ts[i - 1], slots[i - 1], s, prev.1, i - 1 == 0);
        (prev.0.update(i - 1, stepped.0), stepped.1)
    }
}

/// Tokens at or after position `i` are untouched by the first `i` steps, and
/// the token count is kept.
pub proof fn lemma_realign_upto_frame(ts: Seq<(Token, Span)>, slots: Seq<Slot>, s: Seq<u8>, i: int)
    requires
        i <= ts.len(),
    ensures
        realign_upto(ts, slots, s, i).0.len() == ts.len(),
        forall|j: int| i <= j < ts.len() ==> realign_upto(ts, slots, s, i).0[j] == ts[j],
    decreases i,
{
    if i > 0 {
        lemma_realign_upto_frame(ts, slots, s, i - 1);
    }
}

/// A token span resolvable in the two-buffer address space: below the source
/// length it indexes the source, above it the auxiliary buffer.
pub open spec fn token_resolvable(g: Span, s: Seq<u8>, aux: Seq<u8>) -> bool {
    if g.start < s.len() {
        g.start <= g.end <= s.len()
    } else {
        g.start <= g.end && g.end - s.len() <= aux.len()
    }
}

/// After any number of steps the auxiliary buffer stays within the
/// representable address space and every token span is resolvable.
pub proof fn lemma_realign_upto_valid(ts: Seq<(Token, Span)>, slots: Seq<Slot>, s: Seq<u8>, i: int)
    requires
        i <= ts.len(),
        s.len() < 0xFFFF_FFFF,
        forall|j: int|
            0 <= j < ts.len() ==> {
                let g = (#[trigger] ts[j]).1;
                g.start < g.end && g.end <= s.len()
            },
    ensures
        s.len() + realign_upto(ts, slots, s, i).1.len() < 0xFFFF_FFFF,
        realign_upto(ts, slots, s, i).1.len() >= realign_upto(ts, slots, s, i - 1).1.len() || i
            <= 0,
        forall|j: int|
            0 <= j < ts.len() ==> token_resolvable(
                (#[trigger] realign_upto(ts, slots, s, i).0[j]).1,
                s,
                realign_upto(ts, slots, s, i).1,
            ),
    decreases i,
{
    lemma_realign_upto_frame(ts, slots, s, i);
    if i > 0 {
        lemma_realign_upto_frame(ts, slots, s, i - 1);
        lemma_realign_upto_valid(ts, slots, s, i - 1);
        let prev = realign_upto(ts, slots, s, i - 1);
        let cur = realign_upto(ts, slots, s, i);
        assert(forall|j: int|
            0 <= j < ts.len() && j != i - 1 ==> cur.0[j] == prev.0[j] && token_resolvable(
                prev.0[j].1,
                s,
                prev.1,
            ));
        assert(prev.1.len() <= cur.1.len());
        assert(forall|j: int|
            0 <= j < ts.len() && j != i - 1 ==> token_resolvable(cur.0[j].1, s, cur.1));
        assert(prev.0[i - 1] == ts[i - 1]);
        assert(token_resolvable(cur.0[i - 1].1, s, cur.1));
    }
}

/// Whether every line of `t` after its first is empty or indented with
/// exactly `target` tabs.
fn is_aligned(t: &[u8], target: usize) -> (r: bool)
    ensures
        r == aligned(t@, target as int),
{
    proof {
        lemma_run_end(t@, 0, ByteClass::NonNewline);
    }
    let e0 = scan_run(t, 0, ByteClass::NonNewline);
    if e0 >= t.len() {
        return true;
    }
    let mut p = e0 + 1;
    loop
        invariant
            0 <= p <= t@.len(),
            aligned(t@, target as int) == lines_aligned_from(t@, p as int, target as int),
        decreases t@.len() - p,
    {
        let e = scan_run(t, p, ByteClass::NonNewline);
        let te = scan_run(t, p, ByteClass::Tab);
        proof {
            lemma_tab_end_le_line_end(t@, p as int);
        }
        let ok = e == p || te - p == target;
        if !ok {
            return false;
        }
        if e >= t.len() {
            return true;
        }
        p = e + 1;
    }
}

/// Build the rewritten text of `t` at indentation `target`.
fn rewrite_lines(t: &[u8], target: usize) -> (r: Vec<u8>)
    ensures
        r@ == rewrite(t@, target as int),
{
    let mut out: Vec<u8> = Vec::new();
    let e0 = scan_run(t, 0, ByteClass::NonNewline);
    let mut first = vstd::slice::slice_to_vec(vstd::slice::slice_subrange(t, 0, e0));
    out.append(&mut first);
    if e0 >= t.len() {
        proof {
            assert(out@ =~= t@);
        }
        return out;
    }
    let mut p = e0 + 1;
    loop
        invariant
            0 <= p <= t@.len(),
            rewrite(t@, target as int) == out@ + seq![10u8] + rewrite_tail(
                t@,
                p as int,
                target as int,
            ),
        decreases t@.len() - p,
    {
        let ghost out0 = out@;
        out.push(10);
        let mut k: usize = 0;
        while k < target
            invariant
                k <= target,
                out@ == out0 + seq![10u8] + tabs(k as int),
            decreases target - k,
        {
            proof {
                assert(tabs(k + 1) =~= tabs(k as int).push(9u8));
            }
            out.push(9);
            k = k + 1;
        }
        let e = scan_run(t, p, ByteClass::NonNewline);
        let te = scan_run(t, p, ByteClass::Tab);
        proof {
            lemma_tab_end_le_line_end(t@, p as int);
        }
        let mut body = vstd::slice::slice_to_vec(vstd::slice::slice_subrange(t, te, e));
        out.append(&mut body);
        proof {
            assert(out@ =~= out0 + seq![10u8] + (tabs(target as int) + t@.subrange(
                te as int,
                e as int,
            )));
        }
        if e >= t.len() {
            proof {
                assert(rewrite(t@, target as int) =~= out@);
            }
            return out;
        }
        proof {
            assert(rewrite(t@, target as int) =~= out@ + seq![10u8] + rewrite_tail(
                t@,
                e + 1,
                target as int,
            ));
        }
        p = e + 1;
    }
}

/// The block-comment realignment pass: rewrite every block comment whose
/// interior lines disagree with the indentation of its preceding whitespace
/// into the auxiliary buffer, rebasing its span; return that buffer.
pub fn realign_comments(tokens: &mut Tokens, source: &[u8]) -> (aux: Vec<u8>)
    requires
        source@.len() < 0xFFFF_FFFF,
        forall|i: int|
            0 <= i < old(tokens).betweens().len() ==> {
                let g = (#[trigger] old(tokens).betweens()[i]).1;
                g.start < g.end && g.end <= source@.len()
            },
        forall|i: int|
            0 <= i < old(tokens).arounds().len() ==> ((#[trigger] old(tokens).arounds()[i])
                is Raw ==> {
                let g = old(tokens).arounds()[i]->Raw_0;
                g.start <= g.end && g.end <= source@.len()
            }),
    ensures
        final(tokens).arounds() == old(tokens).arounds(),
        final(tokens).betweens() == realign_upto(
            old(tokens).betweens(),
            old(tokens).arounds(),
            source@,
            old(tokens).betweens().len() as int,
        ).0,
        aux@ == realign_upto(
            old(tokens).betweens(),
            old(tokens).arounds(),
            source@,
            old(tokens).betweens().len() as int,
        ).1,
{
    let ghost bw0 = old(tokens).betweens();
    let ghost ar0 = old(tokens).arounds();
    let n = tokens.betweens_len();
    let mut aux: Vec<u8> = Vec::new();
    let mut i: usize = 0;
    while i < n
        invariant
            0 <= i <= n,
            n == bw0.len(),
            ar0.len() == n + 1,
            source@.len() < 0xFFFF_FFFF,
            bw0 == old(tokens).betweens(),
            ar0 == old(tokens).arounds(),
            tokens.arounds() == ar0,
            tokens.betweens() == realign_upto(bw0, ar0, source@, i as int).0,
            aux@ == realign_upto(bw0, ar0, source@, i as int).1,
            source@.len() + aux@.len() < 0xFFFF_FFFF,
            forall|j: int|
                0 <= j < bw0.len() ==> {
                    let g = (#[trigger] bw0[j]).1;
                    g.start < g.end && g.end <= source@.len()
                },
            forall|j: int|
                0 <= j < ar0.len() ==> ((#[trigger] ar0[j]) is Raw ==> {
                    let g = ar0[j]->Raw_0;
                    g.start <= g.end && g.end <= source@.len()
                }),
        decreases n - i,
    {
        proof {
            lemma_realign_upto_frame(bw0, ar0, source@, i as int);
            lemma_realign_upto_valid(bw0, ar0, source@, i as int);
        }
        let ghost prev_aux = aux@;
        let (tok, span) = tokens.between_at(i);
        proof {
            assert(tokens.betweens()[i as int] == bw0[i as int]);
        }
        let mut changed = false;
        if tok == Token::BlockComment {
            let slot = tokens.around_at(i);
            let wsq = match slot {
                Slot::Canonical(w) => w,
                Slot::Raw(g) => Whitespace::from_text(
                    vstd::slice::slice_subrange(source, g.start as usize, g.end as usize),
                ),
            };
            proof {
                assert(wsq == slot_quantized(ar0[i as int], source@));
            }
            let target_opt: Option<usize> = match wsq.indentation() {
                Some(k) => Some(k),
                None => if i == 0 {
                    Some(0)
                } else {
                    None
                },
            };
            if let Some(target) = target_opt {
                let text = vstd::slice::slice_subrange(
                    source,
                    span.start as usize,
                    span.end as usize,
                );
                if !is_aligned(text, target) {
                    let mut rw = rewrite_lines(text, target);
                    let budget = 0xFFFF_FFFFusize - source.len() - aux.len();
                    if rw.len() < budget {
                        let start = source.len() + aux.len();
                        let rw_len = rw.len();
                        aux.append(&mut rw);
                        tokens.set_between(
                            i,
                            (
                                Token::BlockComment,
                                Span { start: start as u32, end: (start + rw_len) as u32 },
                            ),
                        );
                        changed = true;
                    }
                }
            }
        }
        proof {
            let idx = i as int;
            let prev = realign_upto(bw0, ar0, source@, idx);
            let stepped = realign_step(bw0[idx], ar0[idx], source@, prev_aux, idx == 0);
            assert(realign_upto(bw0, ar0, source@, idx + 1).0 == prev.0.update(idx, stepped.0));
            assert(realign_upto(bw0, ar0, source@, idx + 1).1 == stepped.1);
            if !changed {
                assert(stepped == (bw0[idx], prev_aux));
                assert(aux@ == prev_aux);
                assert(tokens.betweens() =~= prev.0.update(idx, bw0[idx]));
            } else {
                assert(aux@ == stepped.1);
                assert(tokens.betweens() =~= prev.0.update(idx, stepped.0));
            }
        }
        i = i + 1;
    }
    aux
}

} // verus!
