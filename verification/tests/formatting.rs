use ualfmt::LineAndColumn;
use ualfmt::Span;

fn fmt(source: &[u8]) -> Vec<u8> {
    ualfmt::format(source).unwrap()
}

#[test]
fn empty_and_whitespace_only_files() {
    assert_eq!(fmt(b""), b"".to_vec());
    assert_eq!(fmt(b"   \n\t "), b"".to_vec());
}

#[test]
fn single_identifier_gets_indent_and_newline() {
    assert_eq!(fmt(b"x"), b"\tx\n".to_vec());
    assert_eq!(fmt(b"  x  "), b"\tx\n".to_vec());
}

#[test]
fn leading_directive_is_not_indented() {
    assert_eq!(fmt(b".word 5"), b".word 5\n".to_vec());
}

#[test]
fn bracket_tightness() {
    // No space just inside the brackets and none before the comma; one
    // space after the comma. The gap after `foo` is normalized to one space
    // by the identifier-on-the-left rule.
    let out = fmt(b"foo( 1 , 2 )");
    assert_eq!(out, b"\tfoo (1, 2)\n".to_vec());
    assert!(!out.windows(2).any(|w| w == b"( " || w == b" )"));
    assert!(!out.windows(2).any(|w| w == b" ,"));
}

#[test]
fn label_column_rule() {
    // The label goes to column zero; the following instruction line gets
    // exactly one leading tab.
    assert_eq!(fmt(b"  loop:\n  b loop"), b"loop:\n\tb\tloop\n".to_vec());
}

#[test]
fn ambiguous_operator() {
    // After a comma the minus keeps its single space and binds the operand
    // tightly; with no whitespace typed before it, none is removed after it
    // either (`Empty` stays `Empty` through the one-or-zero-spaces rule).
    assert_eq!(fmt(b"mov r0, -1"), b"\tmov\tr0, -1\n".to_vec());
    assert_eq!(fmt(b"sub r0, r0-1"), b"\tsub\tr0, r0 -1\n".to_vec());
}

#[test]
fn unary_operator_binds_tight() {
    assert_eq!(fmt(b"mov r0, = 1"), b"\tmov\tr0, =1\n".to_vec());
    assert_eq!(fmt(b"mov r0, #-1"), b"\tmov\tr0, #-1\n".to_vec());
    // A unary before a unary stays tight; anything else before one gets a
    // space.
    assert_eq!(fmt(b"a ~ ~ b"), b"\ta ~~b\n".to_vec());
}

#[test]
fn hash_space_is_a_line_comment() {
    // `# ` opens a line comment, so the rest of the line is preserved.
    assert_eq!(fmt(b"mov r0, # 1"), b"\tmov\tr0, # 1\n".to_vec());
}

#[test]
fn binary_operator_gets_spaces() {
    assert_eq!(fmt(b"mov r0, r1|r2"), b"\tmov\tr0, r1 | r2\n".to_vec());
    assert_eq!(fmt(b"mov r0, r1 << 2"), b"\tmov\tr0, r1 << 2\n".to_vec());
}

#[test]
fn line_comment_gets_two_spaces() {
    assert_eq!(fmt(b"mov // hi"), b"\tmov  // hi\n".to_vec());
    assert_eq!(fmt(b"mov     // hi"), b"\tmov  // hi\n".to_vec());
}

#[test]
fn directive_continuation_is_preserved() {
    // Whitespace before a directive is the sanctioned pass-through: the
    // author-chosen alignment survives byte-for-byte.
    assert_eq!(fmt(b".word 5\n      .word 6"), b".word 5\n      .word 6\n".to_vec());
}

#[test]
fn block_comment_realignment() {
    // The comment follows an indentation signal of one tab; its second line
    // carries two tabs, so it is rewritten to exactly one.
    assert_eq!(
        fmt(b"start:\n\t/* a\n\t\tb */"),
        b"start:\n\t/* a\n\tb */\n".to_vec()
    );
    // An already uniformly indented comment is returned byte-identical.
    assert_eq!(
        fmt(b"start:\n\t/* a\n\tb */"),
        b"start:\n\t/* a\n\tb */\n".to_vec()
    );
}

#[test]
fn block_comment_first_in_file_aligns_to_column_zero() {
    assert_eq!(fmt(b"/* a\n\tb */"), b"/* a\nb */\n".to_vec());
}

#[test]
fn block_comment_after_code_is_skipped() {
    // The whitespace before the comment carries no indentation signal (it is
    // a plain space on the same line), so the comment is left untouched even
    // though its lines are unevenly indented.
    assert_eq!(
        fmt(b"mov /* a\n\t\tb */"),
        b"\tmov /* a\n\t\tb */\n".to_vec()
    );
}

#[test]
fn block_comment_empty_lines() {
    // An empty interior line counts as aligned...
    assert_eq!(
        fmt(b"x:\n\t/* a\n\n\tb */"),
        b"x:\n\t/* a\n\n\tb */\n".to_vec()
    );
    // ...but once any line is misaligned, the rewrite indents every interior
    // line, the empty one included.
    assert_eq!(
        fmt(b"x:\n\t/* a\n\nb */"),
        b"x:\n\t/* a\n\t\n\tb */\n".to_vec()
    );
}

#[test]
fn two_block_comments_share_the_auxiliary_buffer() {
    assert_eq!(
        fmt(b"a:\n\t/* x\n\t\ty */\nb:\n\t/* p\n\t\tq */"),
        b"a:\n\t/* x\n\ty */\nb:\n\t/* p\n\tq */\n".to_vec()
    );
}

#[test]
fn error_locality() {
    // The input is lexable up to the lone angle bracket at offset 4.
    let err = ualfmt::format(b"foo <bar").unwrap_err();
    assert_eq!(err.span.start, 4);
    let err = ualfmt::format(b"@").unwrap_err();
    assert_eq!(err.span.start, 0);
}

#[test]
fn idempotence_on_samples() {
    let samples: Vec<&[u8]> = vec![
        b"",
        b"x",
        b"foo( 1 , 2 )",
        b"  loop:\n  b loop",
        b"mov r0, -1",
        b"sub r0, r0-1",
        b"mov r0, #-1",
        b".word 5\n      .word 6",
        b"start:\n\t/* a\n\t\tb */",
        b"mov // hi\nadd r0, r0, #2\ndone:\n  b done",
        b"a \"s\" b",
        b"x: .asciz \"hi\"\n/* c\n   d */\n",
    ];
    for s in samples {
        let once = fmt(s);
        let twice = fmt(&once);
        assert_eq!(twice, once);
    }
}

#[test]
fn label_rule_can_glue_tokens() {
    // Forcing indentation off before a label declaration deletes a lone tab
    // between two tokens; the glued bytes then re-lex as a single identifier,
    // so a second pass formats this output differently. Idempotence holds
    // slot by slot (see the laws), not for inputs shaped like this one.
    assert_eq!(fmt(b"x\te5:"), b"\txe5:\n".to_vec());
    assert_eq!(fmt(b"\txe5:\n"), b"xe5:\n".to_vec());
}

#[test]
fn token_preservation_on_sample() {
    // The formatted output lexes to the same token kinds and texts as the
    // input (no block comment involved here, so texts are byte-identical).
    let input = b"mov r0, [r1, #4]";
    let before = ualfmt::lexer::tokenize(input).unwrap();
    let output = fmt(input);
    let after = ualfmt::lexer::tokenize(&output).unwrap();
    assert_eq!(before.len(), after.len());
    for ((tk1, sp1), (tk2, sp2)) in before.iter().zip(after.iter()) {
        assert_eq!(tk1, tk2);
        assert_eq!(
            input[sp1.start as usize..sp1.end as usize].to_vec(),
            output[sp2.start as usize..sp2.end as usize].to_vec()
        );
    }
}

#[test]
fn string_argument_is_indented() {
    assert_eq!(fmt(b"a \"s\""), b"\ta\t\"s\"\n".to_vec());
}

#[test]
fn span_arithmetic() {
    let sp = Span { start: 10, end: 20 };
    let left = sp.move_left(4);
    assert_eq!((left.start, left.end), (6, 16));
    let no_prefix = sp.remove_prefix(3);
    assert_eq!((no_prefix.start, no_prefix.end), (13, 20));
    let no_suffix = sp.remove_suffix(5);
    assert_eq!((no_suffix.start, no_suffix.end), (10, 15));
}

#[test]
fn line_and_column() {
    let lc = LineAndColumn::from_location_and_source(0, b"ab\ncd");
    assert_eq!((lc.line, lc.column), (0, 0));
    let lc = LineAndColumn::from_location_and_source(4, b"ab\ncd");
    assert_eq!((lc.line, lc.column), (1, 1));
    let lc = LineAndColumn::from_location_and_source(2, b"ab\ncd");
    assert_eq!((lc.line, lc.column), (0, 2));
    let lc = LineAndColumn::from_location_and_source(3, b"ab\ncd");
    assert_eq!((lc.line, lc.column), (1, 0));
}
